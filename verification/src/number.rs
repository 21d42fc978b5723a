//! Numbers: binary floating-point numbers of 32 bits, given by their bits,
//! and how they are written with six digits behind the point.
//!
//! A number is made of a sign, an exponent of eight bits and a fraction of
//! twenty-three bits. Its size is a whole number, the significand, times a
//! power of two; nothing here is computed in floating point.

use crate::text::{decimal, decimal_text, digit_char, digit_text, lemma_decimal_has_digits};
use vstd::arithmetic::div_mod::{
    lemma_div_by_multiple, lemma_fundamental_div_mod, lemma_mod_multiples_basic,
};
use vstd::arithmetic::power2::{
    lemma2_to64, lemma_pow2_adds, lemma_pow2_pos, lemma_pow2_strictly_increases, lemma_pow2_unfold,
    pow2,
};
use vstd::prelude::*;

verus! {

/// The weight of the sign bit.
pub const SIGN_BIT: u32 = 0x8000_0000;

/// The number of values of the fraction: two to the power of its twenty-three
/// bits.
pub const FRACTION_RANGE: u32 = 0x80_0000;

/// The number of values of the exponent.
pub const EXPONENT_RANGE: u32 = 256;

/// The exponent of the numbers that are no numbers of a size: the infinite
/// ones, and what is not a number.
pub const EXPONENT_SPECIAL: u32 = 255;

/// What the exponent as it is stored lies above the power of two that the
/// significand is multiplied by.
pub const EXPONENT_OFFSET: u32 = 150;

/// The number of millionths in a whole.
pub const MILLION: u32 = 1_000_000;

/// Whether the sign bit is set.
pub open spec fn is_negative(bits: u32) -> bool {
    bits >= SIGN_BIT
}

/// The exponent as it is stored.
pub open spec fn exponent_field(bits: u32) -> nat {
    ((bits / FRACTION_RANGE) % EXPONENT_RANGE) as nat
}

/// The fraction as it is stored.
pub open spec fn fraction_field(bits: u32) -> nat {
    (bits % FRACTION_RANGE) as nat
}

/// Whether the bits stand for what is not a number.
pub open spec fn is_nan(bits: u32) -> bool {
    exponent_field(bits) == EXPONENT_SPECIAL && fraction_field(bits) != 0
}

/// Whether the bits stand for an infinite number.
pub open spec fn is_infinite(bits: u32) -> bool {
    exponent_field(bits) == EXPONENT_SPECIAL && fraction_field(bits) == 0
}

/// The significand of a finite number: the fraction, with a leading one
/// unless the exponent is the least.
pub open spec fn significand(bits: u32) -> nat {
    if exponent_field(bits) == 0 {
        fraction_field(bits)
    } else {
        (fraction_field(bits) + FRACTION_RANGE) as nat
    }
}

/// The power of two that the significand of a finite number is multiplied
/// by. The numbers with the least exponent have that of the next.
pub open spec fn binary_exponent(bits: u32) -> int {
    if exponent_field(bits) == 0 {
        1 - EXPONENT_OFFSET
    } else {
        exponent_field(bits) - EXPONENT_OFFSET
    }
}

/// The whole number nearest to a fraction; of two that are equally near, the
/// even one.
pub open spec fn nearest_even(numerator: nat, denominator: nat) -> nat {
    let quotient = numerator / denominator;
    let rest = numerator % denominator;
    if 2 * rest > denominator || (2 * rest == denominator && quotient % 2 == 1) {
        quotient + 1
    } else {
        quotient
    }
}

/// Two to the power of an exponent that is positive, and one for another.
pub open spec fn raised(exponent: int) -> nat {
    if exponent > 0 {
        pow2(exponent as nat)
    } else {
        1
    }
}

/// Two to the power of the negative of an exponent that is negative, and
/// one for another.
pub open spec fn lowered(exponent: int) -> nat {
    if exponent < 0 {
        pow2((-exponent) as nat)
    } else {
        1
    }
}

/// The numerator of the size of a finite number. The size is the significand
/// times two to the power of the binary exponent, held as a fraction.
pub open spec fn size_numerator(bits: u32) -> nat {
    significand(bits) * raised(binary_exponent(bits))
}

/// The denominator of the size of a finite number.
pub open spec fn size_denominator(bits: u32) -> nat {
    lowered(binary_exponent(bits))
}

/// The size of a finite number in millionths, rounded to the nearest whole
/// number of millionths, and to the even one of two that are equally near.
pub open spec fn millionths(bits: u32) -> nat {
    nearest_even((size_numerator(bits) * MILLION) as nat, size_denominator(bits))
}

/// Less than a million millionths in six digits, with zeros at the front
/// where there are fewer.
pub open spec fn fraction_digits(part: nat) -> Seq<char> {
    seq![
        digit_char(part / 100_000 % 10),
        digit_char(part / 10_000 % 10),
        digit_char(part / 1_000 % 10),
        digit_char(part / 100 % 10),
        digit_char(part / 10 % 10),
        digit_char(part % 10),
    ]
}

/// A number of millionths, written with a point and six digits behind it.
pub open spec fn fixed_text(millionths: nat) -> Seq<char> {
    decimal(millionths / (MILLION as nat)) + "."@ + fraction_digits(
        millionths % (MILLION as nat),
    )
}

/// The sign of a number as text: a minus where the sign bit is set.
pub open spec fn sign_text(bits: u32) -> Seq<char> {
    if is_negative(bits) {
        "-"@
    } else {
        Seq::empty()
    }
}

/// A number written with six digits behind the point: `NaN` for what is not
/// a number, `inf` for an infinite number, and else the size of the number
/// rounded to millionths; a minus before it where the sign bit is set, also
/// before a zero.
pub open spec fn number_text(bits: u32) -> Seq<char> {
    if is_nan(bits) {
        "NaN"@
    } else if is_infinite(bits) {
        sign_text(bits) + "inf"@
    } else {
        sign_text(bits) + fixed_text(millionths(bits))
    }
}

/// The powers of two at the ends of the ranges of the exponent.
proof fn lemma_power_bounds()
    ensures
        pow2(0) == 1,
        pow2(63) == 0x8000_0000_0000_0000,
        pow2(64) == 0x1_0000_0000_0000_0000,
        pow2(104) == 0x100_0000_0000_0000_0000_0000_0000,
        pow2(127) == 0x8000_0000_0000_0000_0000_0000_0000_0000,
{
    lemma2_to64();
    lemma_pow2_adds(32, 31);
    lemma_pow2_adds(64, 32);
    lemma_pow2_adds(96, 8);
    lemma_pow2_adds(64, 63);
}

/// Computes a power of two.
fn power_of_two(exponent: u32) -> (power: u128)
    requires
        exponent <= 127,
    ensures
        power == pow2(exponent as nat),
{
    let mut power: u128 = 1;
    let mut i: u32 = 0;
    proof {
        lemma_power_bounds();
    }
    while i < exponent
        invariant
            i <= exponent <= 127,
            power == pow2(i as nat),
        decreases exponent - i,
    {
        proof {
            lemma_power_bounds();
            lemma_pow2_unfold((i + 1) as nat);
            if i + 1 < 127 {
                lemma_pow2_strictly_increases((i + 1) as nat, 127);
            }
        }
        power = power * 2;
        i = i + 1;
    }
    power
}

/// Rounds a fraction to the nearest whole number, and to the even one of two
/// that are equally near.
fn round_to_even(numerator: u64, denominator: u64) -> (rounded: u64)
    requires
        denominator > 0,
    ensures
        rounded == nearest_even(numerator as nat, denominator as nat),
{
    let quotient = numerator / denominator;
    let rest = numerator % denominator;
    let beyond_half = rest > denominator - rest;
    let at_half = rest == denominator - rest;
    if beyond_half || (at_half && quotient % 2 == 1) {
        proof {
            // There is a rest, so the denominator is two at least, and the
            // quotient half of the numerator at most.
            lemma_fundamental_div_mod(numerator as int, denominator as int);
            assert(denominator * quotient >= 2 * quotient) by (nonlinear_arith)
                requires
                    denominator >= 2,
                    quotient >= 0,
            ;
        }
        quotient + 1
    } else {
        quotient
    }
}

/// Splits the size of a finite number, rounded to millionths, into its
/// whole part and the millionths behind the point.
fn rounded_parts(bits: u32) -> (parts: (u128, u32))
    requires
        !is_nan(bits),
        !is_infinite(bits),
    ensures
        parts.0 == millionths(bits) / (MILLION as nat),
        parts.1 == millionths(bits) % (MILLION as nat),
{
    let exponent = (bits / FRACTION_RANGE) % EXPONENT_RANGE;
    let fraction = bits % FRACTION_RANGE;
    if exponent >= EXPONENT_OFFSET {
        let factor = power_of_two(exponent - EXPONENT_OFFSET);
        let significand = (fraction + FRACTION_RANGE) as u128;
        proof {
            lemma_power_bounds();
            if exponent - EXPONENT_OFFSET < 104 {
                lemma_pow2_strictly_increases((exponent - EXPONENT_OFFSET) as nat, 104);
            }
            assert(significand * factor <= 0xff_ffff * 0x100_0000_0000_0000_0000_0000_0000)
                by (nonlinear_arith)
                requires
                    0 <= significand <= 0xff_ffff,
                    0 <= factor <= 0x100_0000_0000_0000_0000_0000_0000,
            ;
        }
        let whole = significand * factor;
        proof {
            lemma_div_by_multiple(whole as int, MILLION as int);
            lemma_mod_multiples_basic(whole as int, MILLION as int);
            let scaled = (whole * MILLION) as nat;
            assert(raised(binary_exponent(bits)) == factor);
            assert(scaled / 1 == scaled && scaled % 1 == 0);
        }
        (whole, 0)
    } else {
        let significand: u64 = if exponent == 0 {
            fraction as u64
        } else {
            (fraction + FRACTION_RANGE) as u64
        };
        let shift: u32 = if exponent == 0 {
            EXPONENT_OFFSET - 1
        } else {
            EXPONENT_OFFSET - exponent
        };
        assert(significand * MILLION <= 0xff_ffff * 1_000_000) by (nonlinear_arith)
            requires
                0 <= significand <= 0xff_ffff,
                MILLION == 1_000_000,
        ;
        let scaled: u64 = significand * (MILLION as u64);
        proof {
            lemma_power_bounds();
            assert(size_numerator(bits) == significand) by (nonlinear_arith)
                requires
                    size_numerator(bits) == significand * 1,
            ;
        }
        let rounded: u64 = if shift >= 64 {
            proof {
                if shift > 64 {
                    lemma_pow2_strictly_increases(64, shift as nat);
                }
                let denominator = pow2(shift as nat);
                assert(scaled as nat / denominator == 0 && scaled as nat % denominator == scaled)
                    by (nonlinear_arith)
                    requires
                        0 <= scaled < denominator,
                ;
            }
            0
        } else {
            proof {
                lemma_pow2_pos(shift as nat);
                if shift < 63 {
                    lemma_pow2_strictly_increases(shift as nat, 63);
                }
            }
            let denominator = power_of_two(shift) as u64;
            round_to_even(scaled, denominator)
        };
        (((rounded / (MILLION as u64)) as u128), (rounded % (MILLION as u64)) as u32)
    }
}

/// Writes less than a million millionths in six digits.
fn fraction_text(part: u32) -> (text: String)
    requires
        part < MILLION,
    ensures
        text@ == fraction_digits(part as nat),
{
    let mut text = digit_text((part / 100_000 % 10) as u8).to_owned();
    text.append(digit_text((part / 10_000 % 10) as u8));
    text.append(digit_text((part / 1_000 % 10) as u8));
    text.append(digit_text((part / 100 % 10) as u8));
    text.append(digit_text((part / 10 % 10) as u8));
    text.append(digit_text((part % 10) as u8));
    assert(text@ =~= fraction_digits(part as nat));
    text
}

/// Writes a number with six digits behind the point.
pub fn write_number(bits: u32) -> (text: String)
    ensures
        text@ == number_text(bits),
{
    let exponent = (bits / FRACTION_RANGE) % EXPONENT_RANGE;
    let fraction = bits % FRACTION_RANGE;
    if exponent == EXPONENT_SPECIAL && fraction != 0 {
        return "NaN".to_owned();
    }
    let mut text = if bits >= SIGN_BIT {
        "-".to_owned()
    } else {
        String::new()
    };
    if exponent == EXPONENT_SPECIAL {
        text.append("inf");
        return text;
    }
    let (whole, part) = rounded_parts(bits);
    text.append(decimal_text(whole).as_str());
    text.append(".");
    text.append(fraction_text(part).as_str());
    assert(text@ =~= sign_text(bits) + fixed_text(millionths(bits)));
    text
}

/// Rounding gives a whole number that is nearest to the fraction: it lies
/// no more than a half from it, and where it lies just a half from it, it is
/// even.
pub proof fn law_rounding_is_nearest(numerator: nat, denominator: nat)
    requires
        denominator > 0,
    ensures
        ({
            let rounded = nearest_even(numerator, denominator);
            let distance = if rounded * denominator >= numerator {
                rounded * denominator - numerator
            } else {
                numerator - rounded * denominator
            };
            2 * distance <= denominator && (2 * distance == denominator ==> rounded % 2 == 0)
        }),
{
    let quotient = numerator / denominator;
    let rest = numerator % denominator;
    lemma_fundamental_div_mod(numerator as int, denominator as int);
    assert((quotient + 1) * denominator == quotient * denominator + denominator)
        by (nonlinear_arith);
    assert(denominator * quotient == quotient * denominator) by (nonlinear_arith);
}

/// A finite number is written with eight characters at least: a digit, the
/// point and six digits.
pub proof fn law_finite_numbers_fill_a_field(bits: u32)
    requires
        !is_nan(bits),
        !is_infinite(bits),
    ensures
        number_text(bits).len() >= 8,
{
    lemma_decimal_has_digits(millionths(bits) / (MILLION as nat));
    reveal_strlit(".");
}

} // verus!
