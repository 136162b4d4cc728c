//! Rounding to the nearest double.
//!
//! What is rounded is a fixed-point number with more binary places behind the
//! point than any double has, so that one rule covers the integers, the
//! products, the sums and the quotients alike.

use crate::number::{INFINITY, LEADING_ONE};
use vstd::arithmetic::div_mod::{
    lemma_basic_div,
    lemma_fundamental_div_mod,
    lemma_fundamental_div_mod_converse,
    lemma_mod_bound,
    lemma_small_mod,
};
use vstd::arithmetic::power2::{
    lemma2_to64,
    lemma2_to64_rest,
    lemma_pow2_adds,
    lemma_pow2_pos,
    lemma_pow2_strictly_increases,
    lemma_pow2_unfold,
    pow2,
};
use vstd::prelude::*;

verus! {

/// The position of the leading one of `value` in binary: the greatest `p`
/// with two to the power of `p` no greater than `value`. Zero for zero.
pub open spec fn leading_bit(value: nat) -> nat
    decreases value,
{
    if value <= 1 {
        0
    } else {
        1 + leading_bit(value / 2)
    }
}

/// `value`, and a fraction of one more where `more` says so, divided by two
/// to the power of `shift` and rounded to the nearest integer, to the even one
/// of the two where both are as near.
pub open spec fn rounded(value: nat, shift: nat, more: bool) -> nat {
    let unit = pow2(shift);
    let quotient = value / unit;
    let remainder = value % unit;
    if 2 * remainder > unit || (2 * remainder == unit && (more || quotient % 2 == 1)) {
        quotient + 1
    } else {
        quotient
    }
}

/// The number of binary places behind the point in the fixed-point numbers
/// that are rounded to doubles: more than any double has.
pub const FRACTION: i64 = 2300;

/// The bit pattern of the double nearest to the fixed-point number `value`,
/// which counts units of two to the power of minus `FRACTION` and is a
/// fraction of a unit greater where `more` says so. Ties go to the even
/// significand, and what is too large for a finite double gives positive
/// infinity.
pub open spec fn nearest_fixed(value: nat, more: bool) -> u64 {
    if value == 0 {
        0
    } else {
        let position = leading_bit(value) - FRACTION;
        let exponent = if position < -1022 {
            -1022
        } else {
            position
        };
        let pattern = (exponent + 1022) * LEADING_ONE + rounded(
            value,
            (exponent - 52 + FRACTION) as nat,
            more,
        );
        if pattern >= INFINITY {
            INFINITY
        } else {
            pattern as u64
        }
    }
}

/// The bit pattern of the double nearest to `numerator / denominator` times
/// two to the power of `exponent`. Meant for a denominator that is not zero
/// and an exponent of minus `FRACTION` or more.
pub open spec fn nearest_ratio(numerator: nat, denominator: nat, exponent: int) -> u64 {
    let scaled = numerator * pow2((exponent + FRACTION) as nat);
    nearest_fixed(scaled / denominator, scaled % denominator != 0)
}

/// The bit pattern of the double nearest to the natural number `value`, ties
/// going to the even significand, and positive infinity where `value` is too
/// large for a finite double.
pub open spec fn nearest_double(value: nat) -> u64 {
    nearest_ratio(value, 1, 0)
}

/// Two to a power grows with the power.
pub proof fn lemma_pow2_increases(smaller: nat, greater: nat)
    requires
        smaller <= greater,
    ensures
        pow2(smaller) <= pow2(greater),
{
    if smaller < greater {
        lemma_pow2_strictly_increases(smaller, greater);
    }
}

/// A value of one or more lies between two to the power of its leading bit
/// and the next power of two.
pub proof fn lemma_leading_bit(value: nat)
    requires
        value >= 1,
    ensures
        pow2(leading_bit(value)) <= value < pow2(leading_bit(value) + 1),
    decreases value,
{
    lemma2_to64();
    if value > 1 {
        lemma_leading_bit(value / 2);
        lemma_pow2_unfold(leading_bit(value));
        lemma_pow2_unfold(leading_bit(value) + 1);
    }
}

/// The leading bit of a value is the one power of two that the value lies
/// between it and the next.
pub proof fn lemma_leading_bit_is(value: nat, top: nat)
    requires
        pow2(top) <= value < pow2(top + 1),
    ensures
        leading_bit(value) == top,
{
    lemma_pow2_pos(top);
    lemma_leading_bit(value);
    let found = leading_bit(value);
    if found < top {
        lemma_pow2_increases(found + 1, top);
    } else if found > top {
        lemma_pow2_increases(top + 1, found);
    }
}

/// A value moved up by some bits, with anything in the bits below, has its
/// leading bit as many places higher.
pub proof fn lemma_leading_bit_moved(head: nat, dropped: nat, tail: nat)
    requires
        head >= 1,
        tail < pow2(dropped),
    ensures
        leading_bit(head * pow2(dropped) + tail) == leading_bit(head) + dropped,
{
    let top = leading_bit(head);
    let unit = pow2(dropped);
    lemma_leading_bit(head);
    lemma_pow2_adds(top, dropped);
    lemma_pow2_adds(top + 1, dropped);
    assert(pow2(top) * unit <= head * unit) by (nonlinear_arith)
        requires
            pow2(top) <= head,
            unit >= 0,
    ;
    assert((head + 1) * unit <= pow2(top + 1) * unit) by (nonlinear_arith)
        requires
            head + 1 <= pow2(top + 1),
            unit >= 0,
    ;
    assert((head + 1) * unit == head * unit + unit) by (nonlinear_arith);
    assert(top + 1 + dropped == top + dropped + 1);
    lemma_leading_bit_is(head * unit + tail, top + dropped);
}

/// Dividing a value that was moved up by some bits, with anything in the
/// bits below, divides its upper part; the remainder is that of the upper
/// part, moved up, and the bits below.
pub proof fn lemma_divide_moved(head: nat, dropped: nat, tail: nat, shift: nat)
    requires
        tail < pow2(dropped),
    ensures
        (head * pow2(dropped) + tail) / pow2(shift + dropped) == head / pow2(shift),
        (head * pow2(dropped) + tail) % pow2(shift + dropped) == (head % pow2(shift)) * pow2(
            dropped,
        ) + tail,
{
    let unit = pow2(dropped);
    let step = pow2(shift);
    let quotient = head / step;
    let remainder = head % step;
    lemma_pow2_pos(shift);
    lemma_pow2_pos(dropped);
    lemma_pow2_adds(shift, dropped);
    lemma_fundamental_div_mod(head as int, step as int);
    assert(head == step * quotient + remainder);
    assert(head * unit + tail == quotient * (step * unit) + (remainder * unit + tail))
        by (nonlinear_arith)
        requires
            head == step * quotient + remainder,
    ;
    assert(remainder * unit + tail < step * unit) by (nonlinear_arith)
        requires
            remainder < step,
            tail < unit,
            remainder >= 0,
    ;
    lemma_fundamental_div_mod_converse(
        (head * unit + tail) as int,
        (step * unit) as int,
        quotient as int,
        (remainder * unit + tail) as int,
    );
}

/// Rounding a value that was moved up by some bits, with anything in the
/// bits below, rounds its upper part; the bits below count as a fraction of
/// one more if any of them is set.
pub proof fn lemma_rounded_moved(head: nat, dropped: nat, tail: nat, shift: nat, more: bool)
    requires
        shift >= 1,
        tail < pow2(dropped),
    ensures
        rounded(head * pow2(dropped) + tail, shift + dropped, more) == rounded(
            head,
            shift,
            tail > 0 || more,
        ),
{
    let unit = pow2(dropped);
    let step = pow2(shift);
    let half = pow2((shift - 1) as nat);
    let remainder = head % step;
    lemma_divide_moved(head, dropped, tail, shift);
    lemma_pow2_unfold(shift);
    lemma_pow2_adds(shift, dropped);
    lemma_pow2_pos(dropped);
    lemma_pow2_pos(shift);
    assert(step == 2 * half);
    assert(remainder < step) by {
        lemma_mod_bound(head as int, step as int);
    }
    if remainder > half {
        assert(2 * (remainder * unit + tail) > (2 * half) * unit) by (nonlinear_arith)
            requires
                remainder >= half + 1,
                unit > 0,
                tail >= 0,
        ;
    } else if remainder == half {
        assert(2 * (remainder * unit + tail) == (2 * half) * unit + 2 * tail) by (nonlinear_arith)
            requires
                remainder == half,
        ;
    } else {
        assert(2 * (remainder * unit + tail) < (2 * half) * unit) by (nonlinear_arith)
            requires
                remainder + 1 <= half,
                tail < unit,
        ;
    }
}

/// Two to the power of 128 is one more than the greatest `u128`.
pub proof fn lemma_pow2_128()
    ensures
        pow2(128) == 0x1_0000_0000_0000_0000_0000_0000_0000_0000,
        pow2(127) == 0x8000_0000_0000_0000_0000_0000_0000_0000,
{
    lemma2_to64();
    lemma_pow2_adds(64, 64);
    lemma_pow2_unfold(128);
}

/// Two to the power of `exponent`.
pub fn power_of_two(exponent: u64) -> (power: u128)
    requires
        exponent <= 127,
    ensures
        power == pow2(exponent as nat),
{
    let mut power: u128 = 1;
    let mut done: u64 = 0;
    proof {
        lemma2_to64();
        lemma_pow2_128();
    }
    while done < exponent
        invariant
            done <= exponent <= 127,
            power == pow2(done as nat),
            pow2(127) == 0x8000_0000_0000_0000_0000_0000_0000_0000,
        decreases exponent - done,
    {
        proof {
            lemma_pow2_unfold((done + 1) as nat);
            lemma_pow2_increases((done + 1) as nat, 127);
        }
        power = power * 2;
        done = done + 1;
    }
    power
}

/// The position of the leading one of `value`.
pub fn leading_bit_of(value: u128) -> (top: u64)
    requires
        value > 0,
    ensures
        top == leading_bit(value as nat),
        top <= 127,
{
    let mut top: u64 = 0;
    let mut rest = value;
    proof {
        lemma_pow2_128();
        lemma_leading_bit(value as nat);
        if leading_bit(value as nat) > 127 {
            lemma_pow2_increases(128, leading_bit(value as nat));
        }
    }
    while rest > 1
        invariant
            rest >= 1,
            top + leading_bit(rest as nat) == leading_bit(value as nat),
            leading_bit(value as nat) <= 127,
        decreases rest,
    {
        rest = rest / 2;
        top = top + 1;
    }
    top
}

/// The double nearest to the fixed-point number whose upper bits are `head`,
/// above `exponent + FRACTION` lower bits; `sticky` says whether any of the
/// lower bits is set or anything follows them.
pub(crate) fn round(
    head: u128,
    exponent: i64,
    sticky: bool,
    Ghost(tail): Ghost<nat>,
    Ghost(more): Ghost<bool>,
) -> (bits: u64)
    requires
        head >= pow2(53),
        -FRACTION <= exponent <= FRACTION,
        tail < pow2((exponent + FRACTION) as nat),
        sticky == (tail > 0 || more),
    ensures
        bits == nearest_fixed(head as nat * pow2((exponent + FRACTION) as nat) + tail, more),
{
    let ghost places = (exponent + FRACTION) as nat;
    let ghost value = head as nat * pow2(places) + tail;
    proof {
        lemma_pow2_pos(53);
    }
    let top = leading_bit_of(head);
    proof {
        lemma2_to64();
        lemma2_to64_rest();
        lemma_pow2_128();
        lemma_pow2_pos(places);
        lemma_leading_bit(head as nat);
        if top < 53 {
            lemma_pow2_increases((top + 1) as nat, 53);
        }
        lemma_leading_bit_moved(head as nat, places, tail);
        assert(head as nat * pow2(places) >= 1) by (nonlinear_arith)
            requires
                head >= 1,
                pow2(places) >= 1,
        ;
    }
    let position: i64 = top as i64 + exponent;
    let scale: i64 = if position < -1022 {
        -1022
    } else {
        position
    };
    let down: u64 = (scale - 52 - exponent) as u64;
    let kept: u128 = if down <= top {
        let unit = power_of_two(down);
        proof {
            lemma_pow2_pos(down as nat);
        }
        let quotient = head / unit;
        let remainder = head % unit;
        let half = unit / 2;
        proof {
            lemma_pow2_unfold(down as nat);
            lemma_pow2_adds(down as nat, 53);
            lemma_pow2_increases((top + 1) as nat, (down + 53) as nat);
            lemma_fundamental_div_mod(head as int, unit as int);
            assert(quotient < pow2(53)) by (nonlinear_arith)
                requires
                    head == unit * quotient + remainder,
                    remainder >= 0,
                    head < unit * pow2(53),
                    unit > 0,
            ;
        }
        if remainder > half || (remainder == half && (sticky || quotient % 2 == 1)) {
            quotient + 1
        } else {
            quotient
        }
    } else if down == top + 1 {
        let half = power_of_two(top);
        proof {
            lemma_pow2_unfold(down as nat);
            lemma_basic_div(head as int, pow2(down as nat) as int);
            lemma_small_mod(head as nat, pow2(down as nat));
        }
        if head > half || (head == half && sticky) {
            1
        } else {
            0
        }
    } else {
        proof {
            lemma_pow2_unfold(down as nat);
            lemma_pow2_increases((top + 1) as nat, (down - 1) as nat);
            lemma_pow2_increases((top + 1) as nat, down as nat);
            lemma_basic_div(head as int, pow2(down as nat) as int);
            lemma_small_mod(head as nat, pow2(down as nat));
        }
        0
    };
    proof {
        assert(kept == rounded(head as nat, down as nat, sticky));
        lemma_rounded_moved(head as nat, places, tail, down as nat, more);
        assert(down + places == scale - 52 + FRACTION);
    }
    let pattern = ((scale + 1022) as u64) * LEADING_ONE + kept as u64;
    if pattern >= INFINITY {
        INFINITY
    } else {
        pattern
    }
}

/// The same number with its upper bits moved up, until there are 54 bits or
/// more of them.
pub fn normalize(head: u128, exponent: i64) -> (moved: (u128, i64))
    requires
        0 < head < pow2(120),
        53 - FRACTION <= exponent <= FRACTION,
    ensures
        pow2(53) <= moved.0 < pow2(120),
        exponent - 53 <= moved.1 <= exponent,
        moved.0 as nat * pow2((moved.1 + FRACTION) as nat) == head as nat * pow2(
            (exponent + FRACTION) as nat,
        ),
{
    let mut upper = head;
    let mut scale = exponent;
    proof {
        lemma2_to64();
        lemma2_to64_rest();
        lemma_pow2_adds(64, 56);
        lemma_pow2_increases(53, 120);
    }
    while upper < 0x20_0000_0000_0000
        invariant
            0 < upper < pow2(120),
            pow2(53) == 0x20_0000_0000_0000,
            pow2(120) == 0x100_0000_0000_0000_0000_0000_0000_0000,
            exponent - 53 <= scale <= exponent,
            53 - FRACTION <= exponent <= FRACTION,
            upper >= pow2((exponent - scale) as nat),
            upper as nat * pow2((scale + FRACTION) as nat) == head as nat * pow2(
                (exponent + FRACTION) as nat,
            ),
        decreases scale - exponent + 53,
    {
        proof {
            if exponent - scale >= 53 {
                lemma_pow2_increases(53, (exponent - scale) as nat);
            }
            lemma_pow2_unfold((scale + FRACTION) as nat);
            lemma_pow2_unfold((exponent - scale + 1) as nat);
            assert((upper * 2) * pow2((scale - 1 + FRACTION) as nat) == upper * (2 * pow2(
                (scale - 1 + FRACTION) as nat,
            ))) by (nonlinear_arith);
        }
        upper = upper * 2;
        scale = scale - 1;
    }
    (upper, scale)
}

/// The double nearest to the natural number whose upper bits are `head`,
/// above `dropped` lower bits of which `sticky` says whether any is set.
pub(crate) fn pack(head: u128, dropped: u64, sticky: bool, Ghost(tail): Ghost<nat>) -> (bits: u64)
    requires
        0 < head < pow2(120),
        dropped <= FRACTION,
        tail < pow2(dropped as nat),
        sticky == (tail > 0),
        dropped > 0 ==> head >= pow2(53),
    ensures
        bits == nearest_double(head as nat * pow2(dropped as nat) + tail),
{
    let ghost value = head as nat * pow2(dropped as nat) + tail;
    let ghost unit = pow2(FRACTION as nat);
    proof {
        lemma2_to64();
        lemma_pow2_pos(FRACTION as nat);
        lemma_pow2_adds(dropped as nat, FRACTION as nat);
        assert((value * unit) / 1 == value * unit);
        assert((value * unit) % 1 == 0);
        assert(value * unit == head as nat * (pow2(dropped as nat) * unit) + tail * unit)
            by (nonlinear_arith)
            requires
                value == head as nat * pow2(dropped as nat) + tail,
        ;
        assert(tail * unit < pow2(dropped as nat) * unit) by (nonlinear_arith)
            requires
                tail < pow2(dropped as nat),
                unit > 0,
        ;
        assert(tail > 0 <==> tail * unit > 0) by (nonlinear_arith)
            requires
                unit > 0,
                tail >= 0,
        ;
    }
    if dropped == 0 {
        let (upper, scale) = normalize(head, 0);
        proof {
            lemma_pow2_pos((scale + FRACTION) as nat);
            assert(head as nat * 1 == head as nat) by (nonlinear_arith);
            assert(head as nat * (1 * unit) == head as nat * unit) by (nonlinear_arith);
        }
        round(upper, scale, false, Ghost(0), Ghost(false))
    } else {
        round(head, dropped as i64, sticky, Ghost(tail * unit), Ghost(false))
    }
}

/// A natural number of two to the power of 1024 or more has positive
/// infinity as its nearest double.
pub proof fn lemma_huge_is_infinite(value: nat)
    requires
        value >= pow2(1024),
    ensures
        nearest_double(value) == INFINITY,
{
    let unit = pow2(FRACTION as nat);
    let fixed = value * unit;
    lemma2_to64();
    lemma2_to64_rest();
    lemma_pow2_pos(1024);
    lemma_pow2_pos(FRACTION as nat);
    lemma_leading_bit(value);
    lemma_leading_bit_moved(value, FRACTION as nat, 0);
    if leading_bit(value) < 1024 {
        lemma_pow2_increases(leading_bit(value) + 1, 1024);
    }
    assert(fixed / 1 == fixed);
    assert(fixed % 1 == 0);
    assert(fixed >= 1) by (nonlinear_arith)
        requires
            fixed == value * unit,
            value >= 1,
            unit >= 1,
    ;
    let top = leading_bit(fixed);
    let shift = (top - 52 - FRACTION + FRACTION) as nat;
    assert(top == leading_bit(value) + FRACTION);
    lemma_leading_bit(fixed);
    lemma_pow2_adds(52, shift);
    lemma_pow2_pos(shift);
    lemma_fundamental_div_mod(fixed as int, pow2(shift) as int);
    lemma_mod_bound(fixed as int, pow2(shift) as int);
    assert(fixed / pow2(shift) >= pow2(52)) by (nonlinear_arith)
        requires
            fixed == pow2(shift) * (fixed / pow2(shift)) + fixed % pow2(shift),
            fixed % pow2(shift) < pow2(shift),
            fixed >= pow2(52) * pow2(shift),
            pow2(shift) > 0,
    ;
    assert(rounded(fixed, shift, false) >= pow2(52));
    assert((top - FRACTION + 1022) * 0x10_0000_0000_0000 + rounded(fixed, shift, false)
        >= 0x7ff0_0000_0000_0000);
}

} // verus!
