//! The four operations on doubles, rounded to nearest with ties to even.
//!
//! A finite double is its significand, an integer, times a power of two. An
//! operation on finite doubles is the exact operation on these, rounded once.
//! Every NaN that an operation gives has one bit pattern, `NAN`.

use crate::number::{is_nan, magnitude, Number, INFINITY, LEADING_ONE, SIGN};
use crate::number::rounding::{
    leading_bit,
    lemma_leading_bit,
    lemma_leading_bit_moved,
    lemma_pow2_increases,
    nearest_ratio,
    normalize,
    power_of_two,
    round,
    rounded,
    FRACTION,
};
use vstd::arithmetic::div_mod::{lemma_fundamental_div_mod, lemma_fundamental_div_mod_converse, lemma_mod_bound};
use vstd::arithmetic::power2::{lemma2_to64, lemma2_to64_rest, lemma_pow2_adds, lemma_pow2_pos, lemma_pow2_unfold, pow2};
use vstd::prelude::*;

verus! {

/// The NaN that the operations give.
pub const NAN: u64 = 0x7ff8_0000_0000_0000;

/// Whether a bit pattern has its sign bit set.
pub open spec fn is_negative(bits: u64) -> bool {
    bits >= SIGN
}

/// Whether a bit pattern is an infinity.
pub open spec fn is_infinite(bits: u64) -> bool {
    magnitude(bits) == INFINITY
}

/// Whether a bit pattern is a zero.
pub open spec fn is_zero(bits: u64) -> bool {
    magnitude(bits) == 0
}

/// The significand of a finite double as an integer: the fraction bits, under
/// a leading one unless the exponent field is zero.
pub open spec fn mantissa(bits: u64) -> nat {
    let field = magnitude(bits) / LEADING_ONE;
    let fraction = magnitude(bits) % LEADING_ONE;
    if field == 0 {
        fraction as nat
    } else {
        (LEADING_ONE + fraction) as nat
    }
}

/// The power of two that the significand of a finite double counts: its
/// magnitude is `mantissa(bits)` times two to the power of this.
pub open spec fn exponent(bits: u64) -> int {
    let field = magnitude(bits) / LEADING_ONE;
    if field == 0 {
        -1074
    } else {
        field - 1075
    }
}

/// A magnitude with a sign.
pub open spec fn with_sign(negative: bool, pattern: u64) -> u64 {
    if negative {
        (SIGN + pattern) as u64
    } else {
        pattern
    }
}

/// The IEEE 754 product of two doubles: a NaN where either is one or where
/// an infinity meets a zero; else the exact product of the two, rounded, with
/// the sign that the two signs give.
pub open spec fn ieee_product(lhs: u64, rhs: u64) -> u64 {
    let negative = is_negative(lhs) != is_negative(rhs);
    if is_nan(lhs) || is_nan(rhs) {
        NAN
    } else if is_infinite(lhs) || is_infinite(rhs) {
        if is_zero(lhs) || is_zero(rhs) {
            NAN
        } else {
            with_sign(negative, INFINITY)
        }
    } else {
        with_sign(
            negative,
            nearest_ratio(mantissa(lhs) * mantissa(rhs), 1, exponent(lhs) + exponent(rhs)),
        )
    }
}

/// The IEEE 754 quotient of two doubles: a NaN where either is one, where
/// both are infinities and where both are zeros; an infinity where only the
/// dividend is one or only the divisor is a zero; else the exact quotient of
/// the two, rounded; all with the sign that the two signs give.
pub open spec fn ieee_quotient(lhs: u64, rhs: u64) -> u64 {
    let negative = is_negative(lhs) != is_negative(rhs);
    if is_nan(lhs) || is_nan(rhs) {
        NAN
    } else if is_infinite(lhs) {
        if is_infinite(rhs) {
            NAN
        } else {
            with_sign(negative, INFINITY)
        }
    } else if is_infinite(rhs) {
        with_sign(negative, 0)
    } else if is_zero(rhs) {
        if is_zero(lhs) {
            NAN
        } else {
            with_sign(negative, INFINITY)
        }
    } else {
        with_sign(
            negative,
            nearest_ratio(mantissa(lhs), mantissa(rhs), exponent(lhs) - exponent(rhs)),
        )
    }
}

/// The significand of a finite double with the sign of the double.
pub open spec fn signed_mantissa(bits: u64) -> int {
    if is_negative(bits) {
        -(mantissa(bits) as int)
    } else {
        mantissa(bits) as int
    }
}

/// A double with the other sign.
pub open spec fn negated(bits: u64) -> u64 {
    if bits >= SIGN {
        (bits - SIGN) as u64
    } else {
        (bits + SIGN) as u64
    }
}

/// The IEEE 754 sum of two doubles: a NaN where either is one or where the
/// two are infinities of different signs; an infinity where one is; else the
/// exact sum of the two, rounded. An exact sum of zero is the negative zero
/// where both doubles are negative, and the positive zero otherwise.
pub open spec fn ieee_sum(lhs: u64, rhs: u64) -> u64 {
    if is_nan(lhs) || is_nan(rhs) {
        NAN
    } else if is_infinite(lhs) {
        if is_infinite(rhs) && is_negative(lhs) != is_negative(rhs) {
            NAN
        } else {
            lhs
        }
    } else if is_infinite(rhs) {
        rhs
    } else {
        let low = if exponent(lhs) <= exponent(rhs) {
            exponent(lhs)
        } else {
            exponent(rhs)
        };
        let total = signed_mantissa(lhs) * pow2((exponent(lhs) - low) as nat) + signed_mantissa(
            rhs,
        ) * pow2((exponent(rhs) - low) as nat);
        if total == 0 {
            with_sign(is_negative(lhs) && is_negative(rhs), 0)
        } else if total < 0 {
            with_sign(true, nearest_ratio((-total) as nat, 1, low))
        } else {
            with_sign(false, nearest_ratio(total as nat, 1, low))
        }
    }
}

/// The IEEE 754 difference of two doubles: the sum of the first and of the
/// second with the other sign.
pub open spec fn ieee_difference(lhs: u64, rhs: u64) -> u64 {
    ieee_sum(lhs, negated(rhs))
}

/// Rounding gives every finite double back: the double nearest to what a
/// finite double stands for is that double.
pub proof fn lemma_double_is_its_own_nearest(bits: u64)
    requires
        !is_nan(bits),
        !is_infinite(bits),
    ensures
        nearest_ratio(mantissa(bits), 1, exponent(bits)) == magnitude(bits),
{
    let significand = mantissa(bits);
    let places = (exponent(bits) + FRACTION) as nat;
    let unit = pow2(places);
    let fixed = significand * unit;
    lemma2_to64();
    lemma2_to64_rest();
    lemma_pow2_pos(places);
    assert(fixed / 1 == fixed);
    assert(fixed % 1 == 0);
    if significand == 0 {
        assert(0 * unit == 0) by (nonlinear_arith);
    } else {
        assert(fixed >= 1) by (nonlinear_arith)
            requires
                fixed == significand * unit,
                significand >= 1,
                unit >= 1,
        ;
        lemma_leading_bit(significand);
        lemma_leading_bit_moved(significand, places, 0);
        if leading_bit(significand) > 52 {
            lemma_pow2_increases(53, leading_bit(significand));
        }
        if magnitude(bits) / LEADING_ONE > 0 && leading_bit(significand) < 52 {
            lemma_pow2_increases(leading_bit(significand) + 1, 52);
        }
        lemma_fundamental_div_mod_converse(fixed as int, unit as int, significand as int, 0);
        assert(rounded(fixed, places, false) == significand);
    }
}

/// The significand and the exponent of a finite magnitude.
pub fn parts(pattern: u64) -> (found: (u64, i64))
    requires
        pattern < INFINITY,
    ensures
        found.0 == mantissa(pattern),
        found.1 == exponent(pattern),
        found.0 < 2 * LEADING_ONE,
        -1074 <= found.1 <= 971,
        found.1 > -1074 ==> found.0 >= LEADING_ONE,
        found.0 == 0 <==> pattern == 0,
{
    let field = pattern / LEADING_ONE;
    let fraction = pattern % LEADING_ONE;
    if field == 0 {
        (fraction, -1074)
    } else {
        (LEADING_ONE + fraction, field as i64 - 1075)
    }
}

/// A magnitude with a sign.
pub fn signed(negative: bool, pattern: u64) -> (bits: u64)
    requires
        pattern <= INFINITY,
    ensures
        bits == with_sign(negative, pattern),
{
    if negative {
        SIGN + pattern
    } else {
        pattern
    }
}

impl Number {
    /// The product of two numbers.
    pub fn times(self, other: Number) -> (product: Number)
        ensures
            product.bits == ieee_product(self.bits, other.bits),
    {
        let negative = (self.bits >= SIGN) != (other.bits >= SIGN);
        let lhs = if self.bits >= SIGN {
            self.bits - SIGN
        } else {
            self.bits
        };
        let rhs = if other.bits >= SIGN {
            other.bits - SIGN
        } else {
            other.bits
        };
        if lhs > INFINITY || rhs > INFINITY {
            return Number { bits: NAN };
        }
        if lhs == INFINITY || rhs == INFINITY {
            return if lhs == 0 || rhs == 0 {
                Number { bits: NAN }
            } else {
                Number { bits: signed(negative, INFINITY) }
            };
        }
        let (left, left_exponent) = parts(lhs);
        let (right, right_exponent) = parts(rhs);
        proof {
            lemma2_to64();
            lemma2_to64_rest();
            lemma_pow2_adds(64, 56);
            assert(mantissa(self.bits) == left && exponent(self.bits) == left_exponent);
            assert(mantissa(other.bits) == right && exponent(other.bits) == right_exponent);
            assert(left * right < 0x20_0000_0000_0000 * 0x20_0000_0000_0000) by (nonlinear_arith)
                requires
                    left < 0x20_0000_0000_0000,
                    right < 0x20_0000_0000_0000,
            ;
        }
        let wide = left as u128 * right as u128;
        let scale = left_exponent + right_exponent;
        let ghost places = pow2((scale + FRACTION) as nat);
        proof {
            assert((wide as nat * places) / 1 == wide as nat * places);
            assert((wide as nat * places) % 1 == 0);
        }
        if wide == 0 {
            proof {
                assert(0 * places == 0) by (nonlinear_arith);
            }
            return Number { bits: signed(negative, 0) };
        }
        let (head, moved) = normalize(wide, scale);
        proof {
            lemma_pow2_pos((moved + FRACTION) as nat);
        }
        let pattern = round(head, moved, false, Ghost(0), Ghost(false));
        Number { bits: signed(negative, pattern) }
    }
}

/// What is left of a division, scaled up and divided again, adds to the
/// scaled quotient less than one unit of the scale.
pub proof fn lemma_divide_scaled(numerator: nat, denominator: nat, scale: nat)
    requires
        denominator > 0,
        scale > 0,
    ensures
        ({
            let quotient = numerator / denominator;
            let remainder = numerator % denominator;
            let tail = (remainder * scale) / denominator;
            &&& (numerator * scale) / denominator == quotient * scale + tail
            &&& (numerator * scale) % denominator == (remainder * scale) % denominator
            &&& tail < scale
            &&& (remainder != 0) == (tail > 0 || (remainder * scale) % denominator != 0)
        }),
{
    let quotient = numerator / denominator;
    let remainder = numerator % denominator;
    let tail = (remainder * scale) / denominator;
    let rest = (remainder * scale) % denominator;
    lemma_fundamental_div_mod(numerator as int, denominator as int);
    lemma_fundamental_div_mod((remainder * scale) as int, denominator as int);
    lemma_mod_bound(numerator as int, denominator as int);
    lemma_mod_bound((remainder * scale) as int, denominator as int);
    assert(numerator * scale == (quotient * scale + tail) * denominator + rest)
        by (nonlinear_arith)
        requires
            numerator == denominator * quotient + remainder,
            remainder * scale == denominator * tail + rest,
    ;
    lemma_fundamental_div_mod_converse(
        (numerator * scale) as int,
        denominator as int,
        (quotient * scale + tail) as int,
        rest as int,
    );
    assert(tail < scale) by (nonlinear_arith)
        requires
            remainder * scale == denominator * tail + rest,
            remainder < denominator,
            rest >= 0,
            scale > 0,
            denominator > 0,
            tail >= 0,
    ;
    if remainder == 0 {
        assert(remainder * scale == 0) by (nonlinear_arith)
            requires
                remainder == 0,
        ;
        assert(tail == 0 && rest == 0) by (nonlinear_arith)
            requires
                0 == denominator * tail + rest,
                denominator > 0,
                tail >= 0,
                rest >= 0,
        ;
    } else {
        assert(remainder * scale > 0) by (nonlinear_arith)
            requires
                remainder > 0,
                scale > 0,
        ;
        assert(tail > 0 || rest > 0) by (nonlinear_arith)
            requires
                remainder * scale == denominator * tail + rest,
                remainder * scale > 0,
                tail >= 0,
                rest >= 0,
        ;
    }
}

impl Number {
    /// The quotient of two numbers.
    pub fn over(self, other: Number) -> (quotient: Number)
        ensures
            quotient.bits == ieee_quotient(self.bits, other.bits),
    {
        let negative = (self.bits >= SIGN) != (other.bits >= SIGN);
        let lhs = if self.bits >= SIGN {
            self.bits - SIGN
        } else {
            self.bits
        };
        let rhs = if other.bits >= SIGN {
            other.bits - SIGN
        } else {
            other.bits
        };
        if lhs > INFINITY || rhs > INFINITY {
            return Number { bits: NAN };
        }
        if lhs == INFINITY {
            return if rhs == INFINITY {
                Number { bits: NAN }
            } else {
                Number { bits: signed(negative, INFINITY) }
            };
        }
        if rhs == INFINITY {
            return Number { bits: signed(negative, 0) };
        }
        if rhs == 0 {
            return if lhs == 0 {
                Number { bits: NAN }
            } else {
                Number { bits: signed(negative, INFINITY) }
            };
        }
        let (dividend, dividend_exponent) = parts(lhs);
        let (divisor, divisor_exponent) = parts(rhs);
        let ghost scale = dividend_exponent - divisor_exponent;
        proof {
            lemma2_to64();
            lemma2_to64_rest();
            assert(mantissa(self.bits) == dividend && exponent(self.bits) == dividend_exponent);
            assert(mantissa(other.bits) == divisor && exponent(other.bits) == divisor_exponent);
        }
        if dividend == 0 {
            proof {
                assert(0 * pow2((scale + FRACTION) as nat) == 0) by (nonlinear_arith);
            }
            return Number { bits: signed(negative, 0) };
        }
        let mut upper = dividend;
        let mut moved: i64 = 0;
        while upper < 0x8000_0000_0000_0000
            invariant
                0 < upper,
                0 <= moved <= 63,
                upper >= pow2(moved as nat),
                pow2(63) == 0x8000_0000_0000_0000,
                upper == dividend * pow2(moved as nat),
            decreases 64 - moved,
        {
            proof {
                if moved >= 63 {
                    lemma_pow2_increases(63, moved as nat);
                }
                lemma_pow2_unfold((moved + 1) as nat);
                assert((dividend * pow2(moved as nat)) * 2 == dividend * (2 * pow2(moved as nat)))
                    by (nonlinear_arith);
            }
            upper = upper * 2;
            moved = moved + 1;
        }
        let numerator = upper as u128 * 0x1_0000_0000_0000_0000;
        let head = numerator / divisor as u128;
        let left = numerator % divisor as u128;
        let place = dividend_exponent - moved - 64 - divisor_exponent;
        let ghost unit = pow2((place + FRACTION) as nat);
        proof {
            lemma_pow2_pos((place + FRACTION) as nat);
            lemma_pow2_adds(moved as nat, 64);
            lemma_pow2_adds((moved + 64) as nat, (place + FRACTION) as nat);
            assert(moved + 64 + (place + FRACTION) == scale + FRACTION);
            assert(dividend * pow2((scale + FRACTION) as nat) == numerator * unit)
                by (nonlinear_arith)
                requires
                    numerator == (dividend * pow2(moved as nat)) * pow2(64),
                    pow2((scale + FRACTION) as nat) == (pow2(moved as nat) * pow2(64)) * unit,
            ;
            lemma_divide_scaled(numerator as nat, divisor as nat, unit);
            lemma_fundamental_div_mod(numerator as int, divisor as int);
            assert(head >= 0x20_0000_0000_0000) by (nonlinear_arith)
                requires
                    numerator == divisor * head + left,
                    left < divisor,
                    divisor < 0x20_0000_0000_0000,
                    numerator >= 0x8000_0000_0000_0000 * 0x1_0000_0000_0000_0000,
                    head >= 0,
            ;
        }
        let pattern = round(
            head,
            place,
            left != 0,
            Ghost((left as nat * unit) / (divisor as nat)),
            Ghost((left as nat * unit) % (divisor as nat) != 0),
        );
        Number { bits: signed(negative, pattern) }
    }
}

/// The exact sum of two finite doubles, counted in units of the lesser of the
/// two exponents: the greater exponent's significand is moved up by the
/// difference of the exponents.
pub proof fn lemma_total(lhs: u64, rhs: u64)
    requires
        !is_nan(lhs) && !is_infinite(lhs),
        !is_nan(rhs) && !is_infinite(rhs),
    ensures
        exponent(lhs) >= exponent(rhs) ==> ieee_sum(lhs, rhs) == sum_of(
            signed_mantissa(lhs) * pow2((exponent(lhs) - exponent(rhs)) as nat) + signed_mantissa(
                rhs,
            ),
            exponent(rhs),
            is_negative(lhs) && is_negative(rhs),
        ),
        exponent(lhs) < exponent(rhs) ==> ieee_sum(lhs, rhs) == sum_of(
            signed_mantissa(rhs) * pow2((exponent(rhs) - exponent(lhs)) as nat) + signed_mantissa(
                lhs,
            ),
            exponent(lhs),
            is_negative(lhs) && is_negative(rhs),
        ),
{
    lemma2_to64();
    assert(signed_mantissa(lhs) * 1 == signed_mantissa(lhs)) by (nonlinear_arith);
    assert(signed_mantissa(rhs) * 1 == signed_mantissa(rhs)) by (nonlinear_arith);
}

/// The double for an exact sum of `total` units of two to the power of
/// `exponent`; `both_negative` gives the sign of a zero.
pub open spec fn sum_of(total: int, exponent: int, both_negative: bool) -> u64 {
    if total == 0 {
        with_sign(both_negative, 0)
    } else if total < 0 {
        with_sign(true, nearest_ratio((-total) as nat, 1, exponent))
    } else {
        with_sign(false, nearest_ratio(total as nat, 1, exponent))
    }
}

/// The double nearest to `magnitude` units of two to the power of `exponent`,
/// with a sign.
pub fn rounded_exact(negative: bool, magnitude: u128, exponent: i64) -> (bits: u64)
    requires
        0 < magnitude < pow2(120),
        -1074 <= exponent <= 971,
    ensures
        bits == with_sign(negative, nearest_ratio(magnitude as nat, 1, exponent as int)),
{
    let ghost places = pow2((exponent + FRACTION) as nat);
    proof {
        assert((magnitude as nat * places) / 1 == magnitude as nat * places);
        assert((magnitude as nat * places) % 1 == 0);
    }
    let (head, moved) = normalize(magnitude, exponent);
    proof {
        lemma_pow2_pos((moved + FRACTION) as nat);
    }
    let pattern = round(head, moved, false, Ghost(0), Ghost(false));
    signed(negative, pattern)
}

/// The double nearest to a greater part of `upper` times two to the power of
/// `exponent + 8`, to which a smaller part of `lower` times two to the power
/// of `exponent - distance + 8` is added or from which it is taken away,
/// with a sign. The smaller part is too small to reach the bits of `upper`.
pub(crate) fn rounded_apart(
    negative: bool,
    upper: u64,
    exponent: i64,
    lower: u64,
    taken_away: bool,
    Ghost(distance): Ghost<nat>,
) -> (bits: u64)
    requires
        LEADING_ONE <= upper < 2 * LEADING_ONE,
        0 < lower < 2 * LEADING_ONE,
        distance > 60,
        -1074 <= exponent - distance,
        exponent <= 971,
    ensures
        taken_away ==> bits == with_sign(
            negative,
            nearest_ratio((upper * pow2(distance) - lower) as nat, 1, exponent - distance),
        ),
        !taken_away ==> bits == with_sign(
            negative,
            nearest_ratio((upper * pow2(distance) + lower) as nat, 1, exponent - distance),
        ),
{
    let ghost low = exponent - distance;
    let ghost unit = pow2((low + FRACTION) as nat);
    let ghost gap = pow2((distance - 8) as nat);
    let ghost places = pow2((exponent - 8 + FRACTION) as nat);
    let ghost part: nat = if taken_away {
        (gap - lower) as nat
    } else {
        lower as nat
    };
    let head: u128 = if taken_away {
        upper as u128 * 256 - 1
    } else {
        upper as u128 * 256
    };
    proof {
        lemma2_to64();
        lemma2_to64_rest();
        lemma_pow2_pos((low + FRACTION) as nat);
        lemma_pow2_increases(53, (distance - 8) as nat);
        lemma_pow2_adds(8, (distance - 8) as nat);
        lemma_pow2_adds((distance - 8) as nat, (low + FRACTION) as nat);
        assert(8 + (distance - 8) == distance);
        assert(distance - 8 + (low + FRACTION) == exponent - 8 + FRACTION);
        assert(0 < part < gap);
        assert(part * unit < gap * unit) by (nonlinear_arith)
            requires
                part < gap,
                unit > 0,
        ;
        assert(part * unit > 0) by (nonlinear_arith)
            requires
                part > 0,
                unit > 0,
        ;
        if taken_away {
            assert((upper * pow2(distance) - lower) * unit == (upper * 256 - 1) * (gap * unit)
                + (gap - lower) * unit) by (nonlinear_arith)
                requires
                    pow2(distance) == 256 * gap,
            ;
            assert(upper * pow2(distance) - lower > 0) by (nonlinear_arith)
                requires
                    pow2(distance) == 256 * gap,
                    upper >= 1,
                    lower < gap,
                    gap > 0,
            ;
        } else {
            assert((upper * pow2(distance) + lower) * unit == (upper * 256) * (gap * unit) + lower
                * unit) by (nonlinear_arith)
                requires
                    pow2(distance) == 256 * gap,
            ;
            assert(upper * pow2(distance) + lower > 0) by (nonlinear_arith)
                requires
                    upper >= 1,
                    lower >= 0,
                    pow2(distance) > 0,
            ;
        }
        let exact: nat = if taken_away {
            (upper * pow2(distance) - lower) as nat
        } else {
            (upper * pow2(distance) + lower) as nat
        };
        assert(exact * unit == head as nat * places + part * unit);
        assert((exact * unit) / 1 == exact * unit);
        assert((exact * unit) % 1 == 0);
    }
    let pattern = round(head, exponent - 8, true, Ghost(part * unit), Ghost(false));
    signed(negative, pattern)
}

/// The exact sum of two significands with signs, the first moved up by
/// `distance` bits above the second.
pub open spec fn total_of(
    upper: u64,
    upper_negative: bool,
    lower: u64,
    lower_negative: bool,
    distance: nat,
) -> int {
    (if upper_negative {
        -(upper * pow2(distance))
    } else {
        upper * pow2(distance)
    }) + (if lower_negative {
        -(lower as int)
    } else {
        lower as int
    })
}

/// The sum of two finite doubles, given as their significands, exponents and
/// signs, the one with the greater exponent first.
pub fn sum_finite(
    upper: u64,
    upper_exponent: i64,
    upper_negative: bool,
    lower: u64,
    lower_exponent: i64,
    lower_negative: bool,
) -> (bits: u64)
    requires
        upper < 2 * LEADING_ONE,
        lower < 2 * LEADING_ONE,
        -1074 <= lower_exponent <= upper_exponent <= 971,
        upper_exponent > -1074 ==> upper >= LEADING_ONE,
    ensures
        bits == sum_of(
            total_of(
                upper,
                upper_negative,
                lower,
                lower_negative,
                (upper_exponent - lower_exponent) as nat,
            ),
            lower_exponent as int,
            upper_negative && lower_negative,
        ),
{
    let distance = (upper_exponent - lower_exponent) as u64;
    let ghost moved = upper as nat * pow2(distance as nat);
    proof {
        lemma2_to64();
        lemma2_to64_rest();
        lemma_pow2_pos(distance as nat);
        assert(moved >= 0);
    }
    if distance <= 60 {
        proof {
            lemma_pow2_increases(distance as nat, 60);
            lemma_pow2_adds(64, 56);
            assert(upper * pow2(distance as nat) < 0x20_0000_0000_0000 * 0x1000_0000_0000_0000)
                by (nonlinear_arith)
                requires
                    upper < 0x20_0000_0000_0000,
                    pow2(distance as nat) <= 0x1000_0000_0000_0000,
            ;
        }
        let raised = upper as u128 * power_of_two(distance);
        if upper_negative == lower_negative {
            let magnitude = raised + lower as u128;
            if magnitude == 0 {
                signed(upper_negative, 0)
            } else {
                rounded_exact(upper_negative, magnitude, lower_exponent)
            }
        } else if raised > lower as u128 {
            rounded_exact(upper_negative, raised - lower as u128, lower_exponent)
        } else if raised < lower as u128 {
            rounded_exact(lower_negative, lower as u128 - raised, lower_exponent)
        } else {
            0
        }
    } else if lower == 0 {
        proof {
            lemma_pow2_adds(distance as nat, (lower_exponent + FRACTION) as nat);
            assert(distance + (lower_exponent + FRACTION) == upper_exponent + FRACTION);
            assert((upper * pow2(distance as nat)) * pow2((lower_exponent + FRACTION) as nat)
                == upper * pow2((upper_exponent + FRACTION) as nat)) by (nonlinear_arith)
                requires
                    pow2((upper_exponent + FRACTION) as nat) == pow2(distance as nat) * pow2(
                        (lower_exponent + FRACTION) as nat,
                    ),
            ;
            assert(moved > 0) by (nonlinear_arith)
                requires
                    moved == upper * pow2(distance as nat),
                    upper > 0,
                    pow2(distance as nat) > 0,
            ;
            lemma_pow2_increases(53, 120);
        }
        rounded_exact(upper_negative, upper as u128, upper_exponent)
    } else {
        proof {
            lemma_pow2_increases(1, distance as nat);
            assert(moved > lower) by (nonlinear_arith)
                requires
                    moved == upper * pow2(distance as nat),
                    upper >= 0x10_0000_0000_0000,
                    pow2(distance as nat) >= 2,
                    lower < 0x20_0000_0000_0000,
            ;
        }
        rounded_apart(
            upper_negative,
            upper,
            upper_exponent,
            lower,
            upper_negative != lower_negative,
            Ghost(distance as nat),
        )
    }
}

impl Number {
    /// The sum of two numbers.
    pub fn plus(self, other: Number) -> (sum: Number)
        ensures
            sum.bits == ieee_sum(self.bits, other.bits),
    {
        let left_negative = self.bits >= SIGN;
        let right_negative = other.bits >= SIGN;
        let lhs = if left_negative {
            self.bits - SIGN
        } else {
            self.bits
        };
        let rhs = if right_negative {
            other.bits - SIGN
        } else {
            other.bits
        };
        if lhs > INFINITY || rhs > INFINITY {
            return Number { bits: NAN };
        }
        if lhs == INFINITY {
            return if rhs == INFINITY && left_negative != right_negative {
                Number { bits: NAN }
            } else {
                self
            };
        }
        if rhs == INFINITY {
            return other;
        }
        let (left, left_exponent) = parts(lhs);
        let (right, right_exponent) = parts(rhs);
        proof {
            assert(mantissa(self.bits) == left && exponent(self.bits) == left_exponent);
            assert(mantissa(other.bits) == right && exponent(other.bits) == right_exponent);
            lemma_total(self.bits, other.bits);
            let distance = if left_exponent >= right_exponent {
                (left_exponent - right_exponent) as nat
            } else {
                (right_exponent - left_exponent) as nat
            };
            assert((-(left as int)) * pow2(distance) == -(left * pow2(distance)))
                by (nonlinear_arith);
            assert((-(right as int)) * pow2(distance) == -(right * pow2(distance)))
                by (nonlinear_arith);
        }
        if left_exponent >= right_exponent {
            Number {
                bits: sum_finite(
                    left,
                    left_exponent,
                    left_negative,
                    right,
                    right_exponent,
                    right_negative,
                ),
            }
        } else {
            Number {
                bits: sum_finite(
                    right,
                    right_exponent,
                    right_negative,
                    left,
                    left_exponent,
                    left_negative,
                ),
            }
        }
    }

    /// The difference of two numbers.
    pub fn minus(self, other: Number) -> (difference: Number)
        ensures
            difference.bits == ieee_difference(self.bits, other.bits),
    {
        let negated = if other.bits >= SIGN {
            other.bits - SIGN
        } else {
            other.bits + SIGN
        };
        self.plus(Number { bits: negated })
    }
}

} // verus!
