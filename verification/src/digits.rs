//! Whole numbers of any size, held as decimal digits with the lowest first.

use vstd::prelude::*;

verus! {

/// Ten to a power.
pub open spec fn pow10(n: nat) -> nat
    decreases n,
{
    if n == 0 {
        1
    } else {
        10 * pow10((n - 1) as nat)
    }
}

/// Whether every entry is a digit.
pub open spec fn are_digits(digits: Seq<u8>) -> bool {
    forall|i: int| 0 <= i < digits.len() ==> (#[trigger] digits[i]) < 10
}

/// The number that digits write, the lowest digit first.
pub open spec fn value(digits: Seq<u8>) -> nat
    decreases digits.len(),
{
    if digits.len() == 0 {
        0
    } else {
        value(digits.drop_last()) + (digits.last() as nat) * pow10((digits.len() - 1) as nat)
    }
}

/// A power of ten is positive.
pub proof fn lemma_pow10_positive(n: nat)
    ensures
        pow10(n) > 0,
    decreases n,
{
    if n > 0 {
        lemma_pow10_positive((n - 1) as nat);
    }
}

/// Powers of ten multiply as their exponents add.
pub proof fn lemma_pow10_adds(a: nat, b: nat)
    ensures
        pow10(a + b) == pow10(a) * pow10(b),
    decreases a,
{
    if a > 0 {
        lemma_pow10_adds((a - 1) as nat, b);
        assert(pow10(a + b) == 10 * pow10(((a - 1) as nat) + b));
        assert(10 * (pow10((a - 1) as nat) * pow10(b)) == (10 * pow10((a - 1) as nat)) * pow10(b))
            by (nonlinear_arith);
    } else {
        assert(pow10(a) == 1);
        assert(1 * pow10(b) == pow10(b)) by (nonlinear_arith);
    }
}

/// A greater exponent gives no smaller power of ten.
pub proof fn lemma_pow10_grows(a: nat, b: nat)
    requires
        a <= b,
    ensures
        pow10(a) <= pow10(b),
    decreases b,
{
    if a < b {
        lemma_pow10_grows(a, (b - 1) as nat);
        lemma_pow10_positive((b - 1) as nat);
    }
}

/// One more digit at the top adds its worth.
pub proof fn lemma_value_push(digits: Seq<u8>, top: u8)
    ensures
        value(digits.push(top)) == value(digits) + top * pow10(digits.len()),
{
    assert(digits.push(top).drop_last() =~= digits);
}

/// One more digit at the bottom moves the others up by one place.
pub proof fn lemma_value_front(digits: Seq<u8>)
    requires
        digits.len() > 0,
    ensures
        value(digits) == digits[0] + 10 * value(digits.skip(1)),
    decreases digits.len(),
{
    if digits.len() == 1 {
        assert(digits.drop_last() =~= Seq::<u8>::empty());
        assert(digits.skip(1) =~= Seq::<u8>::empty());
        assert(value(digits.drop_last()) == 0);
        assert(value(digits.skip(1)) == 0);
        assert(pow10(0) == 1);
        assert(digits.last() == digits[0]);
        assert((digits[0] as nat) * 1 == digits[0] as nat) by (nonlinear_arith);
    } else {
        let front = digits.drop_last();
        lemma_value_front(front);
        let upper = digits.skip(1);
        assert(front.skip(1) =~= upper.drop_last());
        assert(front[0] == digits[0]);
        assert(upper.last() == digits.last());
        let n = (digits.len() - 2) as nat;
        assert(pow10(n + 1) == 10 * pow10(n));
        let top = digits.last() as nat;
        let low = value(front.skip(1));
        assert(value(upper) == low + top * pow10(n));
        assert(value(digits) == value(front) + top * pow10(n + 1));
        assert(10 * (low + top * pow10(n)) == 10 * low + top * (10 * pow10(n)))
            by (nonlinear_arith);
    }
}

/// The number of some digits is less than the power of ten of their count.
pub proof fn lemma_value_below(digits: Seq<u8>)
    requires
        are_digits(digits),
    ensures
        value(digits) < pow10(digits.len()),
    decreases digits.len(),
{
    if digits.len() > 0 {
        lemma_value_below(digits.drop_last());
        let p = pow10((digits.len() - 1) as nat);
        assert(digits.last() * p <= 9 * p) by (nonlinear_arith)
            requires
                digits.last() <= 9,
                p >= 0,
        ;
    }
}

/// Digits with a top digit that is no zero write a number of that many
/// places.
pub proof fn lemma_value_reaches(digits: Seq<u8>)
    requires
        digits.len() > 0,
        digits.last() > 0,
    ensures
        value(digits) >= pow10((digits.len() - 1) as nat),
{
    let p = pow10((digits.len() - 1) as nat);
    assert(digits.last() * p >= p) by (nonlinear_arith)
        requires
            digits.last() >= 1,
            p >= 0,
    ;
}

/// The digits below a place and those from it on make up the number.
pub proof fn lemma_value_split(digits: Seq<u8>, place: int)
    requires
        0 <= place <= digits.len(),
    ensures
        value(digits) == value(digits.take(place)) + pow10(place as nat) * value(
            digits.skip(place),
        ),
    decreases digits.len(),
{
    if place == digits.len() {
        assert(digits.take(place) =~= digits);
        assert(digits.skip(place) =~= Seq::<u8>::empty());
        assert(value(digits.skip(place)) == 0);
        assert(pow10(place as nat) * 0 == 0) by (nonlinear_arith);
    } else {
        let front = digits.drop_last();
        lemma_value_split(front, place);
        assert(front.take(place) =~= digits.take(place));
        assert(front.skip(place) =~= digits.skip(place).drop_last());
        let upper = digits.skip(place);
        assert(upper.last() == digits.last());
        lemma_pow10_adds(place as nat, (upper.len() - 1) as nat);
        assert(place as nat + (upper.len() - 1) as nat == (digits.len() - 1) as nat);
        let a = pow10(place as nat);
        let b = pow10((upper.len() - 1) as nat);
        let v = value(upper.drop_last());
        let d = digits.last() as nat;
        assert(value(upper) == v + d * b);
        assert(value(digits) == value(front) + d * (a * b));
        assert(a * (v + d * b) == a * v + d * (a * b)) by (nonlinear_arith);
    }
}

/// Digits write zero just when all of them are zero.
pub proof fn lemma_value_zero(digits: Seq<u8>)
    ensures
        (value(digits) == 0) == (forall|i: int| 0 <= i < digits.len() ==> (#[trigger] digits[i]) == 0),
    decreases digits.len(),
{
    if digits.len() > 0 {
        let front = digits.drop_last();
        lemma_value_zero(front);
        let p = pow10((digits.len() - 1) as nat);
        lemma_pow10_positive((digits.len() - 1) as nat);
        assert(digits.last() > 0 ==> digits.last() * p > 0) by (nonlinear_arith)
            requires
                p > 0,
        ;
        assert(digits.last() == 0 ==> digits.last() * p == 0) by (nonlinear_arith);
        if value(digits) == 0 {
            assert forall|i: int| 0 <= i < digits.len() implies (#[trigger] digits[i]) == 0 by {
                if i < front.len() {
                    assert(front[i] == digits[i]);
                }
            }
        } else if digits.last() == 0 {
            let i = choose|i: int| 0 <= i < front.len() && (#[trigger] front[i]) != 0;
            assert(digits[i] == front[i]);
        }
    }
}

/// Multiplies a number by a small factor.
pub(crate) fn times(digits: &Vec<u8>, factor: u8) -> (product: Vec<u8>)
    requires
        are_digits(digits@),
        factor <= 10,
    ensures
        are_digits(product@),
        value(product@) == factor * value(digits@),
        digits@.len() <= product@.len() <= digits@.len() + 1,
        digits@.len() == 0 ==> product@.len() == 0,
        digits@.len() > 0 && digits@.last() > 0 && factor > 0 ==> product@.last() > 0,
{
    let mut product: Vec<u8> = Vec::new();
    let mut carry: u8 = 0;
    let mut i: usize = 0;
    proof {
        assert(digits@.take(0) =~= Seq::<u8>::empty());
        assert(factor * 0 == 0) by (nonlinear_arith);
        assert(0 * pow10(0) == 0) by (nonlinear_arith);
    }
    while i < digits.len()
        invariant
            i <= digits.len(),
            are_digits(digits@),
            are_digits(product@),
            factor <= 10,
            carry <= 9,
            i == 0 ==> carry == 0,
            product@.len() == i,
            value(product@) + carry * pow10(i as nat) == factor * value(digits@.take(i as int)),
            i > 0 && digits@[i - 1] > 0 && factor > 0 ==> carry > 0 || product@.last() > 0,
        decreases digits.len() - i,
    {
        let digit = digits[i];
        assert(factor * digit <= 90) by (nonlinear_arith)
            requires
                factor <= 10,
                digit <= 9,
        ;
        let sum: u8 = factor * digit + carry;
        proof {
            let before = product@;
            let low = (sum % 10) as u8;
            let high = (sum / 10) as u8;
            lemma_value_push(before, low);
            lemma_value_push(digits@.take(i as int), digit);
            assert(digits@.take(i + 1) =~= digits@.take(i as int).push(digit));
            let p = pow10(i as nat);
            assert(pow10((i + 1) as nat) == 10 * p);
            let known = value(digits@.take(i as int));
            assert(value(before) + low * p + high * (10 * p) == factor * (known + digit * p))
                by (nonlinear_arith)
                requires
                    value(before) + carry * p == factor * known,
                    low + 10 * high == factor * digit + carry,
            ;
            assert(digit > 0 && factor > 0 ==> sum > 0) by (nonlinear_arith)
                requires
                    sum == factor * digit + carry,
            ;
        }
        product.push(sum % 10);
        carry = sum / 10;
        i = i + 1;
    }
    assert(digits@.take(i as int) =~= digits@);
    if carry > 0 {
        proof {
            lemma_value_push(product@, carry);
        }
        product.push(carry);
    }
    product
}

} // verus!
