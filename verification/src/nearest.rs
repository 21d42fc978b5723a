//! The number nearest to a fraction: which of the binary floating-point
//! numbers of 32 bits stands for a size given as a numerator and a
//! denominator.

use crate::digits::{
    are_digits, lemma_pow10_adds, lemma_pow10_grows, lemma_pow10_positive, lemma_value_below,
    lemma_value_front, lemma_value_push, lemma_value_reaches, lemma_value_split, lemma_value_zero,
    pow10, times, value,
};
use crate::number::{
    binary_exponent, exponent_field, fraction_field, law_rounding_is_nearest, lowered,
    nearest_even, raised, significand, size_denominator, size_numerator, FRACTION_RANGE,
};
use vstd::arithmetic::div_mod::{
    lemma_div_multiples_vanish_quotient, lemma_fundamental_div_mod_converse,
    lemma_truncate_middle,
};
use vstd::arithmetic::mul::{
    lemma_mul_strict_inequality, lemma_mul_strict_inequality_converse,
};
use vstd::arithmetic::power2::{lemma2_to64, lemma_pow2_pos, lemma_pow2_unfold};
use vstd::prelude::*;

verus! {

/// The number of values of the significand: two to the power of its
/// twenty-four bits.
pub const SIGNIFICAND_RANGE: u32 = 0x100_0000;

/// The bits of the infinite number without a sign.
pub const INFINITE: u32 = 0x7f80_0000;

/// The greatest shift: the sizes of the least numbers are whole multiples of
/// two to the power of its negative.
pub const GREATEST_SHIFT: i32 = 149;

/// The least shift of a finite number.
pub const LEAST_SHIFT: i32 = -104;

/// Whether a fraction, times two to the power of a shift, is below the range
/// of the significand.
pub open spec fn fits(numerator: nat, denominator: nat, shift: int) -> bool {
    numerator * raised(shift) < SIGNIFICAND_RANGE * denominator * lowered(shift)
}

/// The greatest shift, from a given one down, with which a fraction fits the
/// significand; one below the least shift of a finite number where it fits
/// with none of them.
pub open spec fn shift_from(numerator: nat, denominator: nat, shift: int) -> int
    decreases shift - (LEAST_SHIFT - 2),
{
    if shift <= LEAST_SHIFT - 2 || fits(numerator, denominator, shift) {
        shift
    } else {
        shift_from(numerator, denominator, shift - 1)
    }
}

/// The significand for a fraction and a shift: the fraction times two to the
/// power of the shift, rounded to the nearest whole number, and to the even
/// one of two that are equally near.
pub open spec fn rounded_significand(numerator: nat, denominator: nat, shift: int) -> nat {
    nearest_even(numerator * raised(shift), denominator * lowered(shift))
}

/// The bits of the number with a significand and a shift: its size is the
/// significand over two to the power of the shift. A significand that has
/// grown out of its range by the rounding is halved, and the number is
/// infinite where its shift is too small for a finite one.
pub open spec fn assembled(significand: nat, shift: int) -> u32 {
    let carried = significand >= SIGNIFICAND_RANGE;
    let significand = if carried {
        FRACTION_RANGE as nat
    } else {
        significand
    };
    let shift = if carried {
        shift - 1
    } else {
        shift
    };
    if shift < LEAST_SHIFT {
        INFINITE
    } else if significand < FRACTION_RANGE {
        significand as u32
    } else {
        ((GREATEST_SHIFT + 1 - shift) * FRACTION_RANGE + (significand - FRACTION_RANGE)) as u32
    }
}

/// The bits, without a sign, of the number nearest to a fraction. The
/// fraction is given the greatest shift with which it fits the significand,
/// the shift of the least numbers at most, and is rounded at that shift.
pub open spec fn nearest_number(numerator: nat, denominator: nat) -> u32 {
    let shift = shift_from(numerator, denominator, GREATEST_SHIFT as int);
    assembled(rounded_significand(numerator, denominator, shift), shift)
}

/// What fits with a shift fits with the shift below it.
proof fn lemma_fits_below(numerator: nat, denominator: nat, shift: int)
    requires
        fits(numerator, denominator, shift + 1),
    ensures
        fits(numerator, denominator, shift),
{
    let bound = (SIGNIFICAND_RANGE * denominator) as nat;
    lemma2_to64();
    if shift >= 0 {
        lemma_pow2_unfold((shift + 1) as nat);
        lemma_pow2_pos(shift as nat);
        let p = raised(shift);
        assert(raised(shift + 1) == 2 * p);
        assert(numerator * p <= numerator * (2 * p)) by (nonlinear_arith)
            requires
                p >= 0,
        ;
    } else {
        lemma_pow2_unfold((-shift) as nat);
        lemma_pow2_pos((-shift - 1) as nat);
        let q = lowered(shift + 1);
        assert(lowered(shift) == 2 * q);
        assert(bound * q <= bound * (2 * q)) by (nonlinear_arith)
            requires
                q >= 0,
        ;
        assert(SIGNIFICAND_RANGE * denominator * q == bound * q);
        assert(SIGNIFICAND_RANGE * denominator * (2 * q) == bound * (2 * q));
    }
}

/// What does not fit with a shift does not fit with a greater one.
proof fn lemma_fits_not_above(numerator: nat, denominator: nat, shift: int, above: int)
    requires
        !fits(numerator, denominator, shift),
        shift <= above,
    ensures
        !fits(numerator, denominator, above),
    decreases above - shift,
{
    if shift < above {
        if fits(numerator, denominator, above) {
            lemma_fits_below(numerator, denominator, above - 1);
        }
        lemma_fits_not_above(numerator, denominator, shift, above - 1);
    }
}

/// The shift of a fraction is found where the fraction fits and does not
/// fit with the next greater shift.
pub proof fn lemma_shift_found(numerator: nat, denominator: nat, shift: int, from: int)
    requires
        LEAST_SHIFT - 2 <= shift <= from,
        shift == LEAST_SHIFT - 2 || fits(numerator, denominator, shift),
        shift == from || !fits(numerator, denominator, shift + 1),
    ensures
        shift_from(numerator, denominator, from) == shift,
    decreases from - shift,
{
    if shift < from {
        lemma_fits_not_above(numerator, denominator, shift + 1, from);
        lemma_shift_found(numerator, denominator, shift, from - 1);
    }
}

/// Rounding a fraction does not depend on how far the fraction is reduced.
proof fn lemma_rounding_scales(numerator: nat, denominator: nat, factor: nat)
    requires
        denominator > 0,
        factor > 0,
    ensures
        nearest_even(factor * numerator, factor * denominator) == nearest_even(
            numerator,
            denominator,
        ),
{
    lemma_truncate_middle(numerator as int, factor as int, denominator as int);
    lemma_div_multiples_vanish_quotient(factor as int, numerator as int, denominator as int);
    let rest = numerator % denominator;
    assert(2 * (factor * rest) > factor * denominator <==> 2 * rest > denominator)
        by (nonlinear_arith)
        requires
            factor > 0,
    ;
    assert(2 * (factor * rest) == factor * denominator <==> 2 * rest == denominator)
        by (nonlinear_arith)
        requires
            factor > 0,
    ;
}

/// Two fractions of the same size are rounded to the same.
proof fn lemma_rounding_of_equal_fractions(a: nat, b: nat, c: nat, d: nat)
    requires
        b > 0,
        d > 0,
        a * d == c * b,
    ensures
        nearest_even(a, b) == nearest_even(c, d),
{
    lemma_rounding_scales(a, b, d);
    lemma_rounding_scales(c, d, b);
    assert(d * b == b * d) by (nonlinear_arith);
    assert(d * a == a * d) by (nonlinear_arith);
    assert(b * c == c * b) by (nonlinear_arith);
}

/// Of two fractions of the same size, the one is below a bound times its
/// denominator when the other is.
proof fn lemma_equal_fractions_compare(a: nat, b: nat, c: nat, d: nat, bound: nat)
    requires
        b > 0,
        d > 0,
        a * d == c * b,
    ensures
        (a < bound * b) == (c < bound * d),
{
    if a < bound * b {
        lemma_mul_strict_inequality(a as int, (bound * b) as int, d as int);
        assert((bound * b) * d == (bound * d) * b) by (nonlinear_arith);
        lemma_mul_strict_inequality_converse(c as int, (bound * d) as int, b as int);
    }
    if c < bound * d {
        lemma_mul_strict_inequality(c as int, (bound * d) as int, b as int);
        assert((bound * d) * b == (bound * b) * d) by (nonlinear_arith);
        lemma_mul_strict_inequality_converse(a as int, (bound * b) as int, d as int);
    }
}

/// Where the rest of a division lies against the half of the divisor.
enum Rest {
    Below,
    Half,
    Above,
}

/// The first powers of ten.
proof fn lemma_pow10_values()
    ensures
        pow10(0) == 1,
        pow10(1) == 10,
        pow10(8) == 100_000_000,
{
    reveal_with_fuel(pow10, 10);
}

/// The whole part of a number with some of its digits behind the point, where
/// it is within the range of the significand.
fn whole_part(digits: &Vec<u8>, places: u128) -> (whole: Option<u32>)
    requires
        are_digits(digits@),
        digits@.len() == 0 || digits@.last() > 0,
    ensures
        match whole {
            Some(w) => w < SIGNIFICAND_RANGE && w == value(digits@) / pow10(places as nat),
            None => value(digits@) >= SIGNIFICAND_RANGE * pow10(places as nat),
        },
{
    let len = digits.len();
    proof {
        lemma_pow10_values();
        lemma_pow10_positive(places as nat);
        lemma_value_below(digits@);
    }
    if len as u128 <= places {
        proof {
            lemma_pow10_grows(len as nat, places as nat);
            let v = value(digits@);
            let p = pow10(places as nat);
            assert(v / p == 0) by (nonlinear_arith)
                requires
                    0 <= v < p,
            ;
        }
        return Some(0);
    }
    let ghost p = pow10(places as nat);
    let behind = places as usize;
    if len - behind > 8 {
        proof {
            lemma_value_reaches(digits@);
            lemma_pow10_grows((behind + 8) as nat, (len - 1) as nat);
            lemma_pow10_adds(behind as nat, 8);
            assert(SIGNIFICAND_RANGE * p <= p * 100_000_000) by (nonlinear_arith)
                requires
                    p >= 0,
                    SIGNIFICAND_RANGE == 0x100_0000,
            ;
        }
        return None;
    }
    let mut whole: u32 = 0;
    let mut i: usize = len;
    proof {
        assert(digits@.skip(len as int) =~= Seq::<u8>::empty());
    }
    while i > behind
        invariant
            behind <= i <= len,
            len == digits@.len(),
            len - behind <= 8,
            are_digits(digits@),
            whole == value(digits@.skip(i as int)),
            whole < pow10((len - i) as nat),
        decreases i,
    {
        i = i - 1;
        proof {
            let upper = digits@.skip(i as int);
            lemma_value_front(upper);
            assert(upper.skip(1) =~= digits@.skip(i + 1));
            assert(upper[0] == digits@[i as int]);
            lemma_pow10_values();
            lemma_pow10_grows((len - i) as nat, 8);
            assert(pow10((len - i) as nat) == 10 * pow10((len - i - 1) as nat));
        }
        whole = whole * 10 + digits[i] as u32;
    }
    proof {
        lemma_value_split(digits@, behind as int);
        let low = digits@.take(behind as int);
        assert(are_digits(low)) by {
            assert forall|j: int| 0 <= j < low.len() implies (#[trigger] low[j]) < 10 by {
                assert(low[j] == digits@[j]);
            }
        }
        lemma_value_below(low);
        assert(p * whole == whole * p) by (nonlinear_arith);
        lemma_fundamental_div_mod_converse(
            value(digits@) as int,
            p as int,
            whole as int,
            value(low) as int,
        );
        if whole >= SIGNIFICAND_RANGE {
            assert(whole * p >= SIGNIFICAND_RANGE * p) by (nonlinear_arith)
                requires
                    whole >= SIGNIFICAND_RANGE,
                    p >= 0,
            ;
        }
    }
    if whole >= SIGNIFICAND_RANGE {
        None
    } else {
        Some(whole)
    }
}

/// Tells where the part of a number behind the point lies against a half.
fn rest_against_half(digits: &Vec<u8>, places: u128) -> (rest: Rest)
    requires
        are_digits(digits@),
    ensures
        match rest {
            Rest::Below => 2 * (value(digits@) % pow10(places as nat)) < pow10(places as nat),
            Rest::Half => 2 * (value(digits@) % pow10(places as nat)) == pow10(places as nat),
            Rest::Above => 2 * (value(digits@) % pow10(places as nat)) > pow10(places as nat),
        },
{
    let len = digits.len();
    let ghost v = value(digits@);
    let ghost p = pow10(places as nat);
    proof {
        lemma_pow10_values();
        lemma_pow10_positive(places as nat);
        lemma_value_below(digits@);
    }
    if places == 0 {
        return Rest::Below;
    }
    let ghost q = pow10((places - 1) as nat);
    assert(p == 10 * q);
    if places > len as u128 {
        proof {
            lemma_pow10_grows(len as nat, (places - 1) as nat);
            lemma_pow10_positive((places - 1) as nat);
            assert(v % p == v) by (nonlinear_arith)
                requires
                    0 <= v < p,
            ;
        }
        return Rest::Below;
    }
    let behind = places as usize;
    let top = digits[behind - 1];
    let mut clear = true;
    let mut i: usize = 0;
    while i < behind - 1
        invariant
            i <= behind - 1,
            behind <= digits@.len(),
            clear == (forall|j: int| 0 <= j < i ==> (#[trigger] digits@[j]) == 0),
        decreases behind - 1 - i,
    {
        if digits[i] != 0 {
            clear = false;
        }
        i = i + 1;
    }
    proof {
        let low = digits@.take(behind as int);
        let lower = digits@.take(behind - 1);
        assert(low =~= lower.push(top));
        lemma_value_push(lower, top);
        lemma_value_zero(lower);
        assert(clear == (value(lower) == 0)) by {
            if clear {
                assert forall|j: int| 0 <= j < lower.len() implies (#[trigger] lower[j]) == 0 by {
                    assert(lower[j] == digits@[j]);
                }
            } else {
                let j = choose|j: int| 0 <= j < behind - 1 && (#[trigger] digits@[j]) != 0;
                assert(lower[j] == digits@[j]);
            }
        }
        assert(are_digits(lower)) by {
            assert forall|j: int| 0 <= j < lower.len() implies (#[trigger] lower[j]) < 10 by {
                assert(lower[j] == digits@[j]);
            }
        }
        assert(are_digits(low)) by {
            assert forall|j: int| 0 <= j < low.len() implies (#[trigger] low[j]) < 10 by {
                assert(low[j] == digits@[j]);
            }
        }
        lemma_value_below(lower);
        lemma_value_below(low);
        lemma_value_split(digits@, behind as int);
        let upper = value(digits@.skip(behind as int));
        assert(p * upper == upper * p) by (nonlinear_arith);
        lemma_fundamental_div_mod_converse(v as int, p as int, upper as int, value(low) as int);
        assert(value(low) == value(lower) + top * q);
        assert(top > 5 ==> 2 * (top * q) >= 12 * q) by (nonlinear_arith)
            requires
                q >= 0,
        ;
        assert(top < 5 ==> 2 * (top * q) <= 8 * q) by (nonlinear_arith)
            requires
                q >= 0,
                top >= 0,
        ;
        assert(top == 5 ==> 2 * (top * q) == 10 * q) by (nonlinear_arith);
        lemma_pow10_positive((places - 1) as nat);
    }
    if top > 5 {
        Rest::Above
    } else if top < 5 {
        Rest::Below
    } else if clear {
        Rest::Half
    } else {
        Rest::Above
    }
}

/// Whether the digits and the places stand for a fraction times two to the
/// power of a shift.
spec fn stands_for(
    digits: Seq<u8>,
    places: nat,
    numerator: nat,
    denominator: nat,
    shift: int,
) -> bool {
    value(digits) * (denominator * lowered(shift)) == (numerator * raised(shift)) * pow10(places)
}

/// A fraction fits with a shift just when the digits that stand for it are
/// below the range of the significand.
proof fn lemma_fits_by_digits(
    digits: Seq<u8>,
    places: nat,
    numerator: nat,
    denominator: nat,
    shift: int,
)
    requires
        denominator > 0,
        stands_for(digits, places, numerator, denominator, shift),
    ensures
        fits(numerator, denominator, shift) == (value(digits) < SIGNIFICAND_RANGE * pow10(places)),
        rounded_significand(numerator, denominator, shift) == nearest_even(
            value(digits),
            pow10(places),
        ),
{
    lemma_pow10_positive(places);
    lemma_powers_positive(shift);
    let below = denominator * lowered(shift);
    assert(below > 0) by (nonlinear_arith)
        requires
            denominator > 0,
            lowered(shift) > 0,
            below == denominator * lowered(shift),
    ;
    lemma_equal_fractions_compare(
        value(digits),
        pow10(places),
        numerator * raised(shift),
        below,
        SIGNIFICAND_RANGE as nat,
    );
    assert(SIGNIFICAND_RANGE * denominator * lowered(shift) == SIGNIFICAND_RANGE * below)
        by (nonlinear_arith)
        requires
            below == denominator * lowered(shift),
    ;
    lemma_rounding_of_equal_fractions(
        value(digits),
        pow10(places),
        numerator * raised(shift),
        below,
    );
}

/// The powers of two of a shift are positive.
proof fn lemma_powers_positive(shift: int)
    ensures
        raised(shift) > 0,
        lowered(shift) > 0,
{
    if shift > 0 {
        lemma_pow2_pos(shift as nat);
    }
    if shift < 0 {
        lemma_pow2_pos((-shift) as nat);
    }
}

/// The powers of two of the next shift.
proof fn lemma_next_shift(shift: int)
    ensures
        shift >= 0 ==> raised(shift + 1) == 2 * raised(shift) && lowered(shift + 1) == 1
            && lowered(shift) == 1,
        shift <= 0 ==> lowered(shift - 1) == 2 * lowered(shift) && raised(shift - 1) == 1
            && raised(shift) == 1,
{
    lemma2_to64();
    if shift >= 0 {
        lemma_pow2_unfold((shift + 1) as nat);
    }
    if shift <= 0 {
        lemma_pow2_unfold((1 - shift) as nat);
    }
}

/// Takes the zeros from the top of a number.
pub(crate) fn without_top_zeros(digits: Vec<u8>) -> (stripped: Vec<u8>)
    requires
        are_digits(digits@),
    ensures
        are_digits(stripped@),
        value(stripped@) == value(digits@),
        stripped@.len() == 0 || stripped@.last() > 0,
        stripped@.len() <= digits@.len(),
{
    let mut stripped = digits;
    while stripped.len() > 0 && stripped[stripped.len() - 1] == 0
        invariant
            are_digits(stripped@),
            value(stripped@) == value(digits@),
            stripped@.len() <= digits@.len(),
        decreases stripped.len(),
    {
        proof {
            let p = pow10((stripped@.len() - 1) as nat);
            assert(0 * p == 0) by (nonlinear_arith);
        }
        stripped.pop();
    }
    stripped
}

/// Assembles the bits of a number from its significand and its shift.
fn assemble(significand: u32, shift: i32) -> (bits: u32)
    requires
        significand <= SIGNIFICAND_RANGE,
        LEAST_SHIFT - 2 <= shift <= GREATEST_SHIFT,
    ensures
        bits == assembled(significand as nat, shift as int),
        bits <= INFINITE,
{
    let carried = significand >= SIGNIFICAND_RANGE;
    let significand = if carried {
        FRACTION_RANGE
    } else {
        significand
    };
    let shift = if carried {
        shift - 1
    } else {
        shift
    };
    if shift < LEAST_SHIFT {
        INFINITE
    } else if significand < FRACTION_RANGE {
        significand
    } else {
        ((GREATEST_SHIFT + 1 - shift) as u32) * FRACTION_RANGE + (significand - FRACTION_RANGE)
    }
}

/// Finds the number nearest to a decimal fraction: the number that the
/// digits write, the lowest digit first, over ten to the power of the
/// places.
///
/// The fraction is halved or doubled until its whole part is a significand.
/// Halving is multiplying the digits by five and moving the point up by one
/// place; doubling is multiplying them by two. What then stands behind the
/// point decides the rounding.
pub(crate) fn nearest_to_decimal(digits: Vec<u8>, places: u128) -> (bits: u32)
    requires
        are_digits(digits@),
        places <= u128::MAX - 200,
    ensures
        bits == nearest_number(value(digits@), pow10(places as nat)),
        bits <= INFINITE,
{
    let ghost numerator = value(digits@);
    let ghost denominator = pow10(places as nat);
    let mut digits = without_top_zeros(digits);
    let mut places = places;
    let mut shift: i32 = 0;
    proof {
        lemma_pow10_positive(places as nat);
        lemma_next_shift(0);
        assert(stands_for(digits@, places as nat, numerator, denominator, 0)) by {
            assert(numerator * (denominator * 1) == (numerator * 1) * denominator)
                by (nonlinear_arith);
        }
    }
    let mut whole = whole_part(&digits, places);
    // Too great for a significand: halve.
    while whole.is_none() && shift > LEAST_SHIFT - 2
        invariant
            are_digits(digits@),
            digits@.len() == 0 || digits@.last() > 0,
            denominator > 0,
            LEAST_SHIFT - 2 <= shift <= 0,
            places + shift <= u128::MAX - 200,
            stands_for(digits@, places as nat, numerator, denominator, shift as int),
            shift < 0 ==> !fits(numerator, denominator, shift + 1),
            match whole {
                Some(w) => w < SIGNIFICAND_RANGE && w == value(digits@) / pow10(places as nat),
                None => value(digits@) >= SIGNIFICAND_RANGE * pow10(places as nat),
            },
        decreases shift - (LEAST_SHIFT - 2),
    {
        let ghost before = digits@;
        proof {
            lemma_fits_by_digits(before, places as nat, numerator, denominator, shift as int);
            lemma_next_shift(shift as int);
        }
        digits = times(&digits, 5);
        places = places + 1;
        shift = shift - 1;
        proof {
            let v = value(before);
            let below = denominator * lowered(shift + 1);
            let above = numerator * raised(shift + 1);
            let p = pow10((places - 1) as nat);
            assert(pow10(places as nat) == 10 * p);
            assert((5 * v) * (denominator * (2 * lowered(shift + 1))) == above * (10 * p))
                by (nonlinear_arith)
                requires
                    v * (denominator * lowered(shift + 1)) == above * p,
            ;
        }
        whole = whole_part(&digits, places);
    }
    let mut significand = match whole {
        Some(w) => w,
        None => {
            proof {
                lemma_fits_by_digits(digits@, places as nat, numerator, denominator, shift as int);
                lemma_shift_found(
                    numerator,
                    denominator,
                    shift as int,
                    GREATEST_SHIFT as int,
                );
            }
            return INFINITE;
        },
    };
    // Less than a full significand, and more places to be had: double.
    while 0 <= shift && shift < GREATEST_SHIFT && significand < FRACTION_RANGE
        invariant
            are_digits(digits@),
            digits@.len() == 0 || digits@.last() > 0,
            denominator > 0,
            LEAST_SHIFT - 2 <= shift <= GREATEST_SHIFT,
            stands_for(digits@, places as nat, numerator, denominator, shift as int),
            shift < 0 ==> !fits(numerator, denominator, shift + 1),
            significand < SIGNIFICAND_RANGE,
            significand == value(digits@) / pow10(places as nat),
        decreases GREATEST_SHIFT - shift,
    {
        let ghost before = digits@;
        proof {
            lemma_next_shift(shift as int);
            lemma_pow10_positive(places as nat);
        }
        digits = times(&digits, 2);
        shift = shift + 1;
        proof {
            let v = value(before);
            let p = pow10(places as nat);
            let above = numerator * raised(shift - 1);
            assert((2 * v) * (denominator * 1) == (numerator * (2 * raised(shift - 1))) * p)
                by (nonlinear_arith)
                requires
                    v * (denominator * 1) == above * p,
                    above == numerator * raised(shift - 1),
            ;
            assert(2 * v < SIGNIFICAND_RANGE * p) by (nonlinear_arith)
                requires
                    v / p < FRACTION_RANGE,
                    p > 0,
                    v >= 0,
                    SIGNIFICAND_RANGE == 2 * FRACTION_RANGE,
            ;
        }
        match whole_part(&digits, places) {
            Some(w) => {
                significand = w;
            },
            None => {
                // Twice less than half the range is within the range.
                assert(false);
            },
        }
    }
    proof {
        lemma_pow10_positive(places as nat);
        lemma_fits_by_digits(digits@, places as nat, numerator, denominator, shift as int);
        let v = value(digits@);
        let p = pow10(places as nat);
        assert(v < SIGNIFICAND_RANGE * p) by (nonlinear_arith)
            requires
                v / p < SIGNIFICAND_RANGE,
                p > 0,
                v >= 0,
        ;
        if 0 <= shift && shift < GREATEST_SHIFT {
            // Twice as much does not fit.
            lemma_next_shift(shift as int);
            assert(v >= FRACTION_RANGE * p) by (nonlinear_arith)
                requires
                    v / p >= FRACTION_RANGE,
                    p > 0,
                    v >= 0,
            ;
            lemma_twice_does_not_fit(v, p, numerator, denominator, shift as int);
        }
        lemma_shift_found(numerator, denominator, shift as int, GREATEST_SHIFT as int);
    }
    let rounded = match rest_against_half(&digits, places) {
        Rest::Below => significand,
        Rest::Half => if significand % 2 == 1 {
            significand + 1
        } else {
            significand
        },
        Rest::Above => significand + 1,
    };
    assemble(rounded, shift)
}

/// What is half of the range of the significand at least does not fit with
/// the next shift.
proof fn lemma_twice_does_not_fit(v: nat, p: nat, numerator: nat, denominator: nat, shift: int)
    requires
        shift >= 0,
        p > 0,
        denominator > 0,
        v * (denominator * lowered(shift)) == (numerator * raised(shift)) * p,
        v >= FRACTION_RANGE * p,
    ensures
        !fits(numerator, denominator, shift + 1),
{
    lemma_next_shift(shift);
    lemma_powers_positive(shift);
    let above = numerator * raised(shift);
    assert(above * p >= (FRACTION_RANGE * denominator) * p) by (nonlinear_arith)
        requires
            v * (denominator * 1) == above * p,
            v >= FRACTION_RANGE * p,
            denominator > 0,
            p > 0,
    ;
    assert(above >= FRACTION_RANGE * denominator) by (nonlinear_arith)
        requires
            above * p >= (FRACTION_RANGE * denominator) * p,
            p > 0,
    ;
    assert(numerator * (2 * raised(shift)) >= SIGNIFICAND_RANGE * denominator * 1)
        by (nonlinear_arith)
        requires
            above >= FRACTION_RANGE * denominator,
            above == numerator * raised(shift),
            SIGNIFICAND_RANGE == 2 * FRACTION_RANGE,
    ;
}

/// A finite number is the number nearest to its own size: what is read from
/// a text that writes the size of a number to the full is that number.
pub proof fn law_number_is_nearest_to_itself(bits: u32)
    requires
        bits < INFINITE,
    ensures
        nearest_number(size_numerator(bits), size_denominator(bits)) == bits,
{
    let exponent = binary_exponent(bits);
    let shift = -exponent;
    let whole = significand(bits);
    let numerator = whole * raised(exponent);
    let denominator = lowered(exponent);
    lemma_powers_positive(exponent);
    lemma_powers_positive(shift);
    lemma_powers_positive(shift + 1);
    assert(exponent_field(bits) <= 254 && fraction_field(bits) < FRACTION_RANGE && bits
        == exponent_field(bits) * FRACTION_RANGE + fraction_field(bits)) by {
        assert(bits / FRACTION_RANGE < 255);
    }
    // The size times two to the power of the shift is the significand.
    let scale = raised(exponent) * lowered(exponent);
    assert(raised(shift) == lowered(exponent) && lowered(shift) == raised(exponent));
    assert(numerator * raised(shift) == whole * scale) by (nonlinear_arith)
        requires
            numerator == whole * raised(exponent),
            raised(shift) == lowered(exponent),
            scale == raised(exponent) * lowered(exponent),
    ;
    assert(denominator * lowered(shift) == scale) by (nonlinear_arith)
        requires
            denominator == lowered(exponent),
            lowered(shift) == raised(exponent),
            scale == raised(exponent) * lowered(exponent),
    ;
    assert(scale > 0) by (nonlinear_arith)
        requires
            scale == raised(exponent) * lowered(exponent),
            raised(exponent) > 0,
            lowered(exponent) > 0,
    ;
    assert(SIGNIFICAND_RANGE * denominator * lowered(shift) == SIGNIFICAND_RANGE * scale)
        by (nonlinear_arith)
        requires
            denominator * lowered(shift) == scale,
    ;
    assert(whole * scale < SIGNIFICAND_RANGE * scale) by (nonlinear_arith)
        requires
            whole < SIGNIFICAND_RANGE,
            scale > 0,
    ;
    assert(fits(numerator, denominator, shift));
    if shift < GREATEST_SHIFT {
        // Twice the significand is beyond its range.
        lemma_next_shift(shift);
        lemma2_to64();
        if shift >= 0 {
            assert(numerator * raised(shift + 1) == 2 * (whole * scale)) by (nonlinear_arith)
                requires
                    numerator * raised(shift) == whole * scale,
                    raised(shift + 1) == 2 * raised(shift),
            ;
            assert(SIGNIFICAND_RANGE * denominator * lowered(shift + 1) == SIGNIFICAND_RANGE
                * scale) by (nonlinear_arith)
                requires
                    lowered(shift + 1) == 1,
                    lowered(shift) == 1,
                    denominator * lowered(shift) == scale,
            ;
        } else {
            lemma_next_shift(shift + 1);
            assert(raised(shift + 1) == 1 && raised(shift) == 1);
            assert(lowered(shift) == 2 * lowered(shift + 1));
            assert(2 * (numerator * raised(shift + 1)) == 2 * (whole * scale)) by (nonlinear_arith)
                requires
                    numerator * raised(shift) == whole * scale,
                    raised(shift + 1) == 1,
                    raised(shift) == 1,
            ;
            assert(2 * (SIGNIFICAND_RANGE * denominator * lowered(shift + 1)) == SIGNIFICAND_RANGE
                * scale) by (nonlinear_arith)
                requires
                    lowered(shift) == 2 * lowered(shift + 1),
                    denominator * lowered(shift) == scale,
            ;
        }
        assert(2 * (whole * scale) >= SIGNIFICAND_RANGE * scale) by (nonlinear_arith)
            requires
                2 * whole >= SIGNIFICAND_RANGE,
                scale > 0,
        ;
        assert(!fits(numerator, denominator, shift + 1));
    }
    lemma_shift_found(numerator, denominator, shift, GREATEST_SHIFT as int);
    assert(scale * whole == whole * scale) by (nonlinear_arith);
    assert(scale * 1 == scale) by (nonlinear_arith);
    lemma_rounding_scales(whole, 1, scale);
    assert(whole / 1 == whole && whole % 1 == 0);
}

/// The significand of the number nearest to a fraction lies no more than a
/// half from the fraction at the shift of the number; where it lies just a
/// half from it, it is even.
pub proof fn law_nearest_is_within_a_half(numerator: nat, denominator: nat)
    requires
        denominator > 0,
    ensures
        ({
            let shift = shift_from(numerator, denominator, GREATEST_SHIFT as int);
            let significand = rounded_significand(numerator, denominator, shift);
            let scaled = numerator * raised(shift);
            let step = denominator * lowered(shift);
            let distance = if significand * step >= scaled {
                significand * step - scaled
            } else {
                scaled - significand * step
            };
            2 * distance <= step && (2 * distance == step ==> significand % 2 == 0)
        }),
{
    let shift = shift_from(numerator, denominator, GREATEST_SHIFT as int);
    lemma_powers_positive(shift);
    let step = denominator * lowered(shift);
    assert(step > 0) by (nonlinear_arith)
        requires
            denominator > 0,
            lowered(shift) > 0,
            step == denominator * lowered(shift),
    ;
    law_rounding_is_nearest(numerator * raised(shift), step);
}

} // verus!
