//! Reading a number: from a text to the binary floating-point number of 32
//! bits that is nearest to what the text writes.
//!
//! A text writes a number with an optional sign before `inf`, `infinity` or
//! `nan` in letters of either case, or before decimal digits with an optional
//! point among them and an optional power of ten behind them, as in `-12.5e3`.

use crate::digits::{
    are_digits, lemma_pow10_adds, lemma_pow10_grows, lemma_pow10_positive, lemma_value_below,
    lemma_value_push, lemma_value_reaches, pow10, times, value,
};
use crate::nearest::{
    fits, lemma_shift_found, nearest_number, nearest_to_decimal, without_top_zeros,
    GREATEST_SHIFT, INFINITE, LEAST_SHIFT, SIGNIFICAND_RANGE,
};
use crate::number::{lowered, raised, SIGN_BIT};
use crate::text::{all_digits, digit_value, digits_number, is_digit};
use vstd::arithmetic::power2::{lemma2_to64, lemma_pow2_adds, pow2};
use vstd::prelude::*;
use vstd::slice::slice_subrange;
use vstd::string::is_ascii_spec_bytes;
use vstd::utf8::is_ascii_chars;

verus! {

/// The bits, without a sign, that are read for `nan`.
pub const NOT_A_NUMBER: u32 = 0x7fc0_0000;

/// The count of the digits that a text begins with.
pub open spec fn digit_run(text: Seq<char>) -> nat
    decreases text.len(),
{
    if text.len() > 0 && is_digit(text[0]) {
        1 + digit_run(text.skip(1))
    } else {
        0
    }
}

/// The power of ten that the end of a number writes: none at all, or an `e`
/// of either case, an optional sign and at least one digit.
pub open spec fn exponent_written(text: Seq<char>) -> Option<int> {
    if text.len() == 0 {
        Some(0)
    } else if text[0] == 'e' || text[0] == 'E' {
        let signed = text.len() > 1 && (text[1] == '+' || text[1] == '-');
        let digits = if signed {
            text.skip(2)
        } else {
            text.skip(1)
        };
        if digits.len() > 0 && all_digits(digits) {
            if signed && text[1] == '-' {
                Some(-(digits_number(digits) as int))
            } else {
                Some(digits_number(digits) as int)
            }
        } else {
            None
        }
    } else {
        None
    }
}

/// A decimal number as it is written: the digits before and behind the
/// point, and the power of ten that the whole number made of these digits is
/// multiplied by.
pub struct Written {
    pub digits: Seq<char>,
    pub power: int,
}

/// The decimal number that a text writes: digits with at most one point
/// before, among or behind them, at least one digit in all, and a power of
/// ten or nothing behind them.
pub open spec fn decimal_written(text: Seq<char>) -> Option<Written> {
    let whole = digit_run(text);
    let rest = text.skip(whole as int);
    let pointed = rest.len() > 0 && rest[0] == '.';
    let part = if pointed {
        digit_run(rest.skip(1))
    } else {
        0
    };
    let tail = if pointed {
        rest.skip(1 + part as int)
    } else {
        rest
    };
    let digits = if pointed {
        text.take(whole as int) + rest.subrange(1, 1 + part as int)
    } else {
        text.take(whole as int)
    };
    if whole + part == 0 {
        None
    } else {
        match exponent_written(tail) {
            Some(exponent) => Some(Written { digits, power: exponent - part }),
            None => None,
        }
    }
}

/// A letter in lower case; any other character as it is.
pub open spec fn lower(c: char) -> char {
    if 'A' <= c <= 'Z' {
        ((c as u8) + 32) as char
    } else {
        c
    }
}

/// Whether a text is a word, whatever the case of its letters. The word is
/// given in lower case.
pub open spec fn is_word(text: Seq<char>, word: Seq<char>) -> bool {
    &&& text.len() == word.len()
    &&& forall|i: int| 0 <= i < text.len() ==> lower(#[trigger] text[i]) == word[i]
}

/// The numerator of the size that a decimal number writes.
pub open spec fn written_numerator(written: Written) -> nat {
    if written.power > 0 {
        digits_number(written.digits) * pow10(written.power as nat)
    } else {
        digits_number(written.digits)
    }
}

/// The denominator of the size that a decimal number writes.
pub open spec fn written_denominator(written: Written) -> nat {
    if written.power < 0 {
        pow10((-written.power) as nat)
    } else {
        1
    }
}

/// The text behind the sign.
pub open spec fn unsigned_part(text: Seq<char>) -> Seq<char> {
    if text.len() > 0 && (text[0] == '+' || text[0] == '-') {
        text.skip(1)
    } else {
        text
    }
}

/// The sign bit that a text writes: that of a minus at its front.
pub open spec fn sign_written(text: Seq<char>) -> u32 {
    if text.len() > 0 && text[0] == '-' {
        SIGN_BIT
    } else {
        0
    }
}

/// The size that a text without a sign writes, as the bits of the nearest
/// number; `None` where it writes no number.
pub open spec fn size_read(text: Seq<char>) -> Option<u32> {
    if is_word(text, "inf"@) || is_word(text, "infinity"@) {
        Some(INFINITE)
    } else if is_word(text, "nan"@) {
        Some(NOT_A_NUMBER)
    } else {
        match decimal_written(text) {
            Some(written) => Some(
                nearest_number(written_numerator(written), written_denominator(written)),
            ),
            None => None,
        }
    }
}

/// The number that a text writes, as the bits of the nearest binary
/// floating-point number of 32 bits; `None` where the text writes no number.
pub open spec fn number_read(text: Seq<char>) -> Option<u32> {
    match size_read(unsigned_part(text)) {
        Some(size) => Some((sign_written(text) + size) as u32),
        None => None,
    }
}

/// Whether bytes spell a text: the text is made of ASCII characters, each of
/// which is one of the bytes.
spec fn spells(bytes: Seq<u8>, text: Seq<char>) -> bool {
    &&& bytes.len() == text.len()
    &&& forall|i: int|
        0 <= i < text.len() ==> '\0' <= (#[trigger] text[i]) <= '\u{7f}' && bytes[i]
            == text[i] as u8
}

/// A part of what spells a text spells that part of the text.
proof fn lemma_spells_part(bytes: Seq<u8>, text: Seq<char>, from: int, to: int)
    requires
        spells(bytes, text),
        0 <= from <= to <= text.len(),
    ensures
        spells(bytes.subrange(from, to), text.subrange(from, to)),
{
    let part = text.subrange(from, to);
    assert forall|i: int| 0 <= i < part.len() implies '\0' <= (#[trigger] part[i]) <= '\u{7f}'
        && bytes.subrange(from, to)[i] == part[i] as u8 by {
        assert(part[i] == text[from + i]);
    }
}

/// The digits that a text begins with are digits.
proof fn lemma_digit_run(text: Seq<char>)
    ensures
        digit_run(text) <= text.len(),
        all_digits(text.take(digit_run(text) as int)),
        digit_run(text) < text.len() ==> !is_digit(text[digit_run(text) as int]),
    decreases text.len(),
{
    if text.len() > 0 && is_digit(text[0]) {
        let rest = text.skip(1);
        lemma_digit_run(rest);
        let run = digit_run(text);
        let front = text.take(run as int);
        assert forall|i: int| 0 <= i < front.len() implies is_digit(#[trigger] front[i]) by {
            if i > 0 {
                assert(front[i] == rest.take(digit_run(rest) as int)[i - 1]);
            }
        }
        if run < text.len() {
            assert(text[run as int] == rest[digit_run(rest) as int]);
        }
    }
}

/// Counts the digits that a text begins with.
fn count_digits(bytes: &[u8], Ghost(text): Ghost<Seq<char>>) -> (count: usize)
    requires
        spells(bytes@, text),
    ensures
        count == digit_run(text),
        count <= bytes@.len(),
{
    let mut i: usize = 0;
    assert(text.skip(0) =~= text);
    while i < bytes.len()
        invariant
            i <= bytes@.len(),
            spells(bytes@, text),
            digit_run(text) == i + digit_run(text.skip(i as int)),
        ensures
            i <= bytes@.len(),
            digit_run(text) == i,
        decreases bytes.len() - i,
    {
        let byte = bytes[i];
        proof {
            let rest = text.skip(i as int);
            assert(rest[0] == text[i as int]);
            assert(rest.skip(1) =~= text.skip(i + 1));
        }
        if !('0' as u8 <= byte && byte <= '9' as u8) {
            assert(!is_digit(text[i as int]));
            break;
        }
        assert(is_digit(text[i as int]));
        i = i + 1;
    }
    i
}

/// A letter in lower case; any other byte as it is.
fn lower_byte(byte: u8) -> (low: u8)
    ensures
        byte <= 127 ==> low <= 127 && low as char == lower(byte as char),
{
    if 'A' as u8 <= byte && byte <= 'Z' as u8 {
        byte + 32
    } else {
        byte
    }
}

/// Tells whether a text is a word, whatever the case of its letters.
fn is_word_bytes(bytes: &[u8], word: &str, Ghost(text): Ghost<Seq<char>>) -> (same: bool)
    requires
        spells(bytes@, text),
        is_ascii_chars(word@),
    ensures
        same == is_word(text, word@),
{
    let letters = word.as_bytes();
    proof {
        is_ascii_spec_bytes(word);
    }
    if bytes.len() != letters.len() {
        return false;
    }
    let mut i: usize = 0;
    while i < bytes.len()
        invariant
            i <= bytes@.len(),
            bytes@.len() == letters@.len(),
            letters@.len() == word@.len(),
            spells(bytes@, text),
            is_ascii_chars(word@),
            forall|j: int| 0 <= j < word@.len() ==> letters@[j] == (#[trigger] word@[j]) as u8,
            forall|j: int| 0 <= j < i ==> lower(#[trigger] text[j]) == word@[j],
        decreases bytes.len() - i,
    {
        let low = lower_byte(bytes[i]);
        if low != letters[i] {
            assert(lower(text[i as int]) != word@[i as int]);
            return false;
        }
        assert(lower(text[i as int]) == word@[i as int]);
        i = i + 1;
    }
    true
}

/// The greatest power of ten that is told from greater ones. A number
/// with a power that is greater is infinite or zero whatever the power is.
const POWER_BOUND: i128 = 1_000_000_000_000_000_000_000_000_000_000;

/// A number, or the bound where the number is beyond it.
spec fn bounded(number: int) -> int {
    if number > POWER_BOUND {
        POWER_BOUND as int
    } else if number < -POWER_BOUND {
        -POWER_BOUND
    } else {
        number
    }
}

/// Reads the number that digits write, up to the bound.
fn read_digits_bounded(bytes: &[u8], Ghost(text): Ghost<Seq<char>>) -> (number: i128)
    requires
        spells(bytes@, text),
        all_digits(text),
    ensures
        number == bounded(digits_number(text) as int),
        number >= 0,
{
    let mut number: i128 = 0;
    let mut i: usize = 0;
    assert(text.take(0) =~= Seq::<char>::empty());
    while i < bytes.len()
        invariant
            i <= bytes@.len(),
            spells(bytes@, text),
            all_digits(text),
            0 <= number <= POWER_BOUND,
            number == bounded(digits_number(text.take(i as int)) as int),
        decreases bytes.len() - i,
    {
        let byte = bytes[i];
        proof {
            let next = text.take(i + 1);
            assert(next.drop_last() =~= text.take(i as int));
            assert(next.last() == text[i as int]);
            assert(is_digit(text[i as int]));
        }
        let digit = (byte - '0' as u8) as i128;
        number = number * 10 + digit;
        if number > POWER_BOUND {
            number = POWER_BOUND;
        }
        i = i + 1;
    }
    assert(text.take(i as int) =~= text);
    number
}

/// Reads the power of ten at the end of a number, up to the bound.
fn read_exponent(bytes: &[u8], Ghost(text): Ghost<Seq<char>>) -> (exponent: Option<i128>)
    requires
        spells(bytes@, text),
    ensures
        match exponent_written(text) {
            Some(written) => exponent == Some(bounded(written) as i128),
            None => exponent is None,
        },
{
    let len = bytes.len();
    if len == 0 {
        return Some(0);
    }
    if bytes[0] != 'e' as u8 && bytes[0] != 'E' as u8 {
        assert(text[0] != 'e' && text[0] != 'E');
        return None;
    }
    assert(text[0] == 'e' || text[0] == 'E');
    let signed = len > 1 && (bytes[1] == '+' as u8 || bytes[1] == '-' as u8);
    let negative = signed && bytes[1] == '-' as u8;
    proof {
        if len > 1 {
            assert(signed == (text[1] == '+' || text[1] == '-'));
            assert(negative == (text[1] == '-'));
        }
    }
    let from: usize = if signed {
        2
    } else {
        1
    };
    let digits = slice_subrange(bytes, from, len);
    let ghost digits_text = text.skip(from as int);
    proof {
        lemma_spells_part(bytes@, text, from as int, len as int);
        assert(text.subrange(from as int, len as int) =~= digits_text);
        lemma_digit_run(digits_text);
    }
    let count = count_digits(digits, Ghost(digits_text));
    if count == 0 || count < digits.len() {
        proof {
            if count < digits.len() {
                assert(!is_digit(digits_text[count as int]));
            }
        }
        return None;
    }
    assert(digits_text.take(count as int) =~= digits_text);
    let number = read_digits_bounded(digits, Ghost(digits_text));
    if negative {
        Some(-number)
    } else {
        Some(number)
    }
}

/// The number that digits write is made of its first digit and the rest.
proof fn lemma_digits_front(text: Seq<char>)
    requires
        text.len() > 0,
    ensures
        digits_number(text) == digit_value(text[0]) * pow10((text.len() - 1) as nat)
            + digits_number(text.skip(1)),
    decreases text.len(),
{
    if text.len() == 1 {
        assert(text.drop_last() =~= Seq::<char>::empty());
        assert(text.skip(1) =~= Seq::<char>::empty());
        assert(digits_number(text.drop_last()) == 0);
        assert(pow10(0) == 1);
        assert(digit_value(text[0]) * 1 == digit_value(text[0])) by (nonlinear_arith);
    } else {
        let front = text.drop_last();
        lemma_digits_front(front);
        assert(front.skip(1) =~= text.skip(1).drop_last());
        assert(front[0] == text[0]);
        assert(text.skip(1).last() == text.last());
        let n = (text.len() - 2) as nat;
        assert(pow10(n + 1) == 10 * pow10(n));
        let first = digit_value(text[0]);
        let middle = digits_number(front.skip(1));
        assert((first * pow10(n) + middle) * 10 == first * (10 * pow10(n)) + middle * 10)
            by (nonlinear_arith);
    }
}

/// Adds the digits of a text to a number, from the last to the first, each
/// above those that are there.
fn push_digits(
    digits: &mut Vec<u8>,
    bytes: &[u8],
    Ghost(text): Ghost<Seq<char>>,
    Ghost(behind): Ghost<Seq<char>>,
)
    requires
        spells(bytes@, text),
        all_digits(text),
        are_digits(old(digits)@),
        old(digits)@.len() == behind.len(),
        value(old(digits)@) == digits_number(behind),
    ensures
        are_digits(final(digits)@),
        final(digits)@.len() == text.len() + behind.len(),
        value(final(digits)@) == digits_number(text + behind),
{
    let mut i: usize = bytes.len();
    proof {
        assert(text.skip(i as int) + behind =~= behind);
    }
    while i > 0
        invariant
            i <= bytes@.len(),
            spells(bytes@, text),
            all_digits(text),
            are_digits(digits@),
            digits@.len() == text.len() - i + behind.len(),
            value(digits@) == digits_number(text.skip(i as int) + behind),
        decreases i,
    {
        i = i - 1;
        let byte = bytes[i];
        assert(is_digit(text[i as int]));
        let digit = byte - '0' as u8;
        proof {
            let longer = text.skip(i as int) + behind;
            lemma_digits_front(longer);
            assert(longer.skip(1) =~= text.skip(i + 1) + behind);
            assert(longer[0] == text[i as int]);
            lemma_value_push(digits@, digit);
            assert(digit == digit_value(text[i as int]));
        }
        digits.push(digit);
    }
    assert(text.skip(0) =~= text);
}

/// Some powers of two and of ten, and how they lie to each other.
proof fn lemma_power_values()
    ensures
        pow2(105) == 0x200_0000_0000_0000_0000_0000_0000,
        pow2(149) == 0x20_0000_0000_0000_0000_0000_0000_0000_0000_0000,
        pow10(39) == 1_000_000_000_000_000_000_000_000_000_000_000_000_000,
        pow10(46) == 10_000_000_000_000_000_000_000_000_000_000_000_000_000_000_000,
        SIGNIFICAND_RANGE * pow2(105) <= pow10(39),
        2 * pow2(149) <= pow10(46),
{
    lemma2_to64();
    lemma_pow2_adds(32, 9);
    lemma_pow2_adds(64, 41);
    lemma_pow2_adds(32, 21);
    lemma_pow2_adds(64, 53);
    lemma_pow2_adds(117, 32);
    assert(pow10(13) == 10_000_000_000_000) by {
        reveal_with_fuel(pow10, 14);
    }
    assert(pow10(7) == 10_000_000) by {
        reveal_with_fuel(pow10, 8);
    }
    lemma_pow10_adds(13, 13);
    lemma_pow10_adds(26, 13);
    lemma_pow10_adds(39, 7);
}

/// Nothing is read as zero.
proof fn lemma_nothing_is_zero(denominator: nat)
    requires
        denominator > 0,
    ensures
        nearest_number(0, denominator) == 0,
{
    lemma2_to64();
    let shift = GREATEST_SHIFT as int;
    assert(SIGNIFICAND_RANGE * denominator * lowered(shift) > 0) by (nonlinear_arith)
        requires
            denominator > 0,
            lowered(shift) == 1,
            SIGNIFICAND_RANGE == 0x100_0000,
    ;
    assert(0 * raised(shift) == 0) by (nonlinear_arith);
    assert(fits(0, denominator, shift));
    let below = denominator * lowered(shift);
    assert(below == denominator) by (nonlinear_arith)
        requires
            below == denominator * lowered(shift),
            lowered(shift) == 1,
    ;
    assert(0nat / below == 0 && 0nat % below == 0) by (nonlinear_arith)
        requires
            below > 0,
    ;
}

/// A whole number of forty digits or more is beyond the finite numbers.
proof fn lemma_huge_is_infinite(numerator: nat)
    requires
        numerator >= pow10(39),
    ensures
        nearest_number(numerator, 1) == INFINITE,
{
    lemma_power_values();
    let least = LEAST_SHIFT - 1;
    assert(raised(least) == 1 && lowered(least) == pow2(105));
    assert(numerator * 1 >= SIGNIFICAND_RANGE * 1 * pow2(105)) by (nonlinear_arith)
        requires
            numerator >= SIGNIFICAND_RANGE * pow2(105),
    ;
    assert(!fits(numerator, 1, least));
    lemma_shift_found(numerator, 1, LEAST_SHIFT - 2, GREATEST_SHIFT as int);
}

/// A number with few digits and many places behind the point is read as
/// zero.
proof fn lemma_tiny_is_zero(numerator: nat, count: nat, places: nat)
    requires
        numerator < pow10(count),
        places >= count + 46,
    ensures
        nearest_number(numerator, pow10(places)) == 0,
{
    lemma_power_values();
    lemma_pow10_adds(count, 46);
    lemma_pow10_grows(count + 46, places);
    lemma_pow10_positive(count);
    let denominator = pow10(places);
    let shift = GREATEST_SHIFT as int;
    let scaled = numerator * pow2(149);
    let twice = 2 * pow2(149);
    let bound = pow10(46);
    assert(2 * scaled == numerator * twice) by (nonlinear_arith)
        requires
            scaled == numerator * pow2(149),
            twice == 2 * pow2(149),
    ;
    assert(numerator * twice <= numerator * bound) by (nonlinear_arith)
        requires
            twice <= bound,
            numerator >= 0,
    ;
    assert(numerator * bound < pow10(count) * bound) by (nonlinear_arith)
        requires
            numerator < pow10(count),
            bound > 0,
    ;
    assert(raised(shift) == pow2(149) && lowered(shift) == 1);
    assert(SIGNIFICAND_RANGE * denominator * 1 >= denominator) by (nonlinear_arith)
        requires
            SIGNIFICAND_RANGE == 0x100_0000,
            denominator >= 0,
    ;
    assert(fits(numerator, denominator, shift));
    let below = denominator * lowered(shift);
    assert(below == denominator) by (nonlinear_arith)
        requires
            below == denominator * lowered(shift),
            lowered(shift) == 1,
    ;
    assert(scaled / below == 0 && scaled % below == scaled) by (nonlinear_arith)
        requires
            0 <= scaled < below,
    ;
}

/// The least power of ten with which every whole number but zero is beyond
/// the finite numbers.
const INFINITE_POWER: i128 = 39;

/// The number of places behind the point, beyond the count of its digits,
/// from which on a number is read as zero.
const ZERO_PLACES: u128 = 46;

/// Whether a power of ten as it was read stands for the power that is
/// written: it is the power, or both are beyond what is told apart.
spec fn stands_for_power(read: i128, written: int) -> bool {
    ||| read == written
    ||| read >= POWER_BOUND - u64::MAX && written >= read
    ||| read <= -POWER_BOUND && written <= read
}

/// Finds the number nearest to what a decimal number writes, given its
/// digits, the lowest first, and its power of ten.
fn nearest_to_written(digits: Vec<u8>, power: i128, Ghost(written): Ghost<Written>) -> (bits: u32)
    requires
        are_digits(digits@),
        digits@.len() <= u64::MAX,
        value(digits@) == digits_number(written.digits),
        stands_for_power(power, written.power),
        -POWER_BOUND - u64::MAX <= power <= POWER_BOUND,
    ensures
        bits == nearest_number(written_numerator(written), written_denominator(written)),
        bits <= INFINITE,
{
    let ghost number = value(digits@);
    let mut digits = without_top_zeros(digits);
    proof {
        lemma_pow10_positive(0);
        lemma_value_below(digits@);
        if written.power < 0 {
            lemma_pow10_positive((-written.power) as nat);
        }
        if written.power > 0 {
            lemma_pow10_positive(written.power as nat);
        }
    }
    if digits.len() == 0 {
        proof {
            assert(0 * pow10(written.power as nat) == 0) by (nonlinear_arith);
            lemma_nothing_is_zero(written_denominator(written));
        }
        return 0;
    }
    proof {
        lemma_value_reaches(digits@);
        lemma_pow10_positive((digits@.len() - 1) as nat);
    }
    if power >= 0 {
        if power >= INFINITE_POWER {
            proof {
                lemma_pow10_grows(39, written.power as nat);
                assert(number * pow10(written.power as nat) >= pow10(39)) by (nonlinear_arith)
                    requires
                        number >= 1,
                        pow10(written.power as nat) >= pow10(39),
                ;
                lemma_huge_is_infinite(written_numerator(written));
            }
            return INFINITE;
        }
        let mut raised_by: i128 = 0;
        proof {
            assert(number * pow10(0) == number) by (nonlinear_arith)
                requires
                    pow10(0) == 1,
            ;
        }
        while raised_by < power
            invariant
                0 <= raised_by <= power < INFINITE_POWER,
                are_digits(digits@),
                value(digits@) == number * pow10(raised_by as nat),
            decreases power - raised_by,
        {
            digits = times(&digits, 10);
            proof {
                let p = pow10(raised_by as nat);
                assert(pow10((raised_by + 1) as nat) == 10 * p);
                assert(10 * (number * p) == number * (10 * p)) by (nonlinear_arith);
            }
            raised_by = raised_by + 1;
        }
        proof {
            assert(pow10(0) == 1);
        }
        nearest_to_decimal(digits, 0)
    } else {
        let places = (-power) as u128;
        if places >= digits.len() as u128 + ZERO_PLACES {
            proof {
                lemma_tiny_is_zero(number, digits@.len() as nat, (-written.power) as nat);
            }
            return 0;
        }
        nearest_to_decimal(digits, places)
    }
}

/// The three words are written in small ASCII letters.
proof fn lemma_words()
    ensures
        is_ascii_chars("inf"@),
        is_ascii_chars("infinity"@),
        is_ascii_chars("nan"@),
{
    reveal_strlit("inf");
    reveal_strlit("infinity");
    reveal_strlit("nan");
}

/// Reads the size that a text without a sign writes.
fn read_size(bytes: &[u8], Ghost(text): Ghost<Seq<char>>) -> (size: Option<u32>)
    requires
        spells(bytes@, text),
        bytes@.len() <= u64::MAX,
    ensures
        size == size_read(text),
        size matches Some(bits) ==> bits <= NOT_A_NUMBER,
{
    proof {
        lemma_words();
    }
    if is_word_bytes(bytes, "inf", Ghost(text)) || is_word_bytes(bytes, "infinity", Ghost(text)) {
        return Some(INFINITE);
    }
    if is_word_bytes(bytes, "nan", Ghost(text)) {
        return Some(NOT_A_NUMBER);
    }
    let len = bytes.len();
    let whole = count_digits(bytes, Ghost(text));
    let ghost rest = text.skip(whole as int);
    let pointed = whole < len && bytes[whole] == '.' as u8;
    proof {
        lemma_digit_run(text);
        if whole < len {
            assert(rest[0] == text[whole as int]);
            assert(pointed == (text[whole as int] == '.'));
        }
    }
    let mut part: usize = 0;
    if pointed {
        let behind = slice_subrange(bytes, whole + 1, len);
        proof {
            lemma_spells_part(bytes@, text, whole + 1, len as int);
            assert(text.subrange(whole + 1, len as int) =~= rest.skip(1));
        }
        part = count_digits(behind, Ghost(rest.skip(1)));
    }
    if whole == 0 && part == 0 {
        return None;
    }
    let tail_from: usize = if pointed {
        whole + 1 + part
    } else {
        whole
    };
    let ghost tail = if pointed {
        rest.skip(1 + part)
    } else {
        rest
    };
    let tail_bytes = slice_subrange(bytes, tail_from, len);
    proof {
        lemma_spells_part(bytes@, text, tail_from as int, len as int);
        assert(text.subrange(tail_from as int, len as int) =~= tail);
    }
    let exponent = match read_exponent(tail_bytes, Ghost(tail)) {
        Some(exponent) => exponent,
        None => {
            return None;
        },
    };
    let ghost written = decimal_written(text).unwrap();
    let ghost whole_text = text.take(whole as int);
    let ghost part_text = if pointed {
        rest.subrange(1, 1 + part)
    } else {
        Seq::<char>::empty()
    };
    let mut digits: Vec<u8> = Vec::new();
    if pointed {
        let part_bytes = slice_subrange(bytes, whole + 1, whole + 1 + part);
        proof {
            lemma_spells_part(bytes@, text, whole + 1, whole + 1 + part);
            assert(text.subrange(whole + 1, whole + 1 + part) =~= part_text);
            lemma_digit_run(rest.skip(1));
            assert(rest.skip(1).take(part as int) =~= part_text);
            assert(part_text + Seq::<char>::empty() =~= part_text);
        }
        push_digits(&mut digits, part_bytes, Ghost(part_text), Ghost(Seq::<char>::empty()));
    }
    let whole_bytes = slice_subrange(bytes, 0, whole);
    proof {
        lemma_spells_part(bytes@, text, 0, whole as int);
        assert(text.subrange(0, whole as int) =~= whole_text);
        assert(whole_text + part_text =~= written.digits);
    }
    push_digits(&mut digits, whole_bytes, Ghost(whole_text), Ghost(part_text));
    let power = exponent - part as i128;
    Some(nearest_to_written(digits, power, Ghost(written)))
}

/// Reads the number that a text writes and gives the bits of the nearest
/// binary floating-point number of 32 bits, or `None` where the text writes
/// no number.
pub fn read_number(text: &str) -> (bits: Option<u32>)
    ensures
        bits == number_read(text@),
{
    if !text.is_ascii() {
        proof {
            if number_read(text@) is Some {
                law_numbers_are_ascii(text@);
            }
        }
        return None;
    }
    let bytes = text.as_bytes();
    proof {
        is_ascii_spec_bytes(text);
    }
    let len = bytes.len();
    let signed = len > 0 && (bytes[0] == '+' as u8 || bytes[0] == '-' as u8);
    let sign: u32 = if len > 0 && bytes[0] == '-' as u8 {
        SIGN_BIT
    } else {
        0
    };
    let from: usize = if signed {
        1
    } else {
        0
    };
    proof {
        if len > 0 {
            assert(signed == (text@[0] == '+' || text@[0] == '-'));
            assert((sign == SIGN_BIT) == (text@[0] == '-'));
        }
        lemma_spells_part(bytes@, text@, from as int, len as int);
        assert(text@.subrange(from as int, len as int) =~= unsigned_part(text@));
    }
    let body = slice_subrange(bytes, from, len);
    match read_size(body, Ghost(unsigned_part(text@))) {
        Some(size) => Some(sign + size),
        None => None,
    }
}

/// A text that writes a number is made of ASCII characters.
pub proof fn law_numbers_are_ascii(text: Seq<char>)
    requires
        number_read(text) is Some,
    ensures
        is_ascii_chars(text),
{
    let body = unsigned_part(text);
    lemma_size_is_ascii(body);
    assert forall|i: int| 0 <= i < text.len() implies '\0' <= #[trigger] text[i] <= '\u{7f}' by {
        if body.len() == text.len() {
            assert(text[i] == body[i]);
        } else if i > 0 {
            assert(text[i] == body[i - 1]);
        }
    }
}

/// A text that writes a size is made of ASCII characters.
proof fn lemma_size_is_ascii(text: Seq<char>)
    requires
        size_read(text) is Some,
    ensures
        is_ascii_chars(text),
{
    reveal_strlit("inf");
    reveal_strlit("infinity");
    reveal_strlit("nan");
    if is_word(text, "inf"@) {
        lemma_word_is_ascii(text, "inf"@);
    } else if is_word(text, "infinity"@) {
        lemma_word_is_ascii(text, "infinity"@);
    } else if is_word(text, "nan"@) {
        lemma_word_is_ascii(text, "nan"@);
    } else {
        let whole = digit_run(text);
        let rest = text.skip(whole as int);
        let pointed = rest.len() > 0 && rest[0] == '.';
        let part = if pointed {
            digit_run(rest.skip(1))
        } else {
            0
        };
        let tail = if pointed {
            rest.skip(1 + part as int)
        } else {
            rest
        };
        lemma_digit_run(text);
        if pointed {
            lemma_digit_run(rest.skip(1));
        }
        let from: int = if pointed {
            whole as int + 1 + part as int
        } else {
            whole as int
        };
        assert(exponent_written(tail) is Some);
        assert forall|i: int| 0 <= i < text.len() implies '\0' <= #[trigger] text[i]
            <= '\u{7f}' by {
            if i < whole {
                assert(is_digit(text.take(whole as int)[i]));
            } else if pointed && i == whole {
                assert(text[i] == rest[0]);
            } else if pointed && i < whole + 1 + part {
                assert(text[i] == rest.skip(1).take(part as int)[i - whole - 1]);
                assert(is_digit(rest.skip(1).take(part as int)[i - whole - 1]));
            } else {
                assert(text[i] == tail[i - from]);
                let signed = tail.len() > 1 && (tail[1] == '+' || tail[1] == '-');
                let digits = if signed {
                    tail.skip(2)
                } else {
                    tail.skip(1)
                };
                if i - from == 0 {
                } else if signed && i - from == 1 {
                } else if signed {
                    assert(is_digit(digits[i - from - 2]));
                } else {
                    assert(is_digit(digits[i - from - 1]));
                }
            }
        }
    }
}

/// A text that is a word in small ASCII letters, whatever the case of its
/// own letters, is made of ASCII characters.
proof fn lemma_word_is_ascii(text: Seq<char>, word: Seq<char>)
    requires
        is_word(text, word),
        forall|i: int| 0 <= i < word.len() ==> 'a' <= #[trigger] word[i] <= 'z',
    ensures
        is_ascii_chars(text),
{
    assert forall|i: int| 0 <= i < text.len() implies '\0' <= #[trigger] text[i] <= '\u{7f}' by {
        assert(lower(text[i]) == word[i]);
    }
}

} // verus!
