//! Numbers: IEEE 754 doubles, held as their bit patterns.
//!
//! Everything that is done with numbers is defined on the bit patterns and
//! computed by verified code on integers: equality, the integer part and the
//! number nearest to an integer here, the four operations in `arithmetic`,
//! and the reading of decimal integers in `decimal`.

pub mod arithmetic;
pub mod decimal;
pub mod rounding;

use crate::number::rounding::{lemma_pow2_increases, nearest_double, pack, FRACTION};
use vstd::arithmetic::div_mod::{lemma_fundamental_div_mod, lemma_mod_bound};
use vstd::arithmetic::power2::{
    lemma2_to64,
    lemma2_to64_rest,
    lemma_pow2_pos,
    lemma_pow2_strictly_increases,
    pow2,
};
use vstd::bits::{lemma_u64_shl_is_mul, lemma_u64_shr_is_div};
use vstd::prelude::*;

verus! {

/// A number of the language: the bit pattern of an IEEE 754 double.
#[derive(Debug, Clone, Copy)]
pub struct Number {
    pub bits: u64,
}

/// The sign bit of a double.
pub const SIGN: u64 = 0x8000_0000_0000_0000;

/// The bit pattern of positive infinity: every pattern whose magnitude is
/// greater is a NaN.
pub const INFINITY: u64 = 0x7ff0_0000_0000_0000;

/// Two to the power of 52: the leading one of the significand of a normal
/// double, and the step from one exponent to the next in a bit pattern.
pub const LEADING_ONE: u64 = 0x0010_0000_0000_0000;

/// The exponent field of the doubles from one up to two.
pub const EXPONENT_OF_ONE: u64 = 1023;

/// A bit pattern without its sign bit.
pub open spec fn magnitude(bits: u64) -> u64 {
    if bits >= SIGN {
        (bits - SIGN) as u64
    } else {
        bits
    }
}

/// Whether a bit pattern is a NaN.
pub open spec fn is_nan(bits: u64) -> bool {
    magnitude(bits) > INFINITY
}

/// IEEE 754 equality of two doubles: a NaN equals nothing, the two zeros are
/// equal to each other, and otherwise equal doubles have equal bit patterns.
pub open spec fn ieee_equal(lhs: u64, rhs: u64) -> bool {
    !is_nan(lhs) && !is_nan(rhs) && (lhs == rhs || (magnitude(lhs) == 0 && magnitude(rhs) == 0))
}

/// The integer part of a double: the double with everything behind the point
/// cut off, which is the integer next to it toward zero. Every double between
/// minus one and one has the integer part zero, the negative zero among
/// them. A NaN and the infinities have no integer part.
pub open spec fn integer_part(bits: u64) -> Option<int> {
    if magnitude(bits) >= INFINITY {
        None
    } else {
        let exponent = magnitude(bits) / LEADING_ONE;
        let significand = LEADING_ONE + magnitude(bits) % LEADING_ONE;
        let whole: int = if exponent < EXPONENT_OF_ONE {
            0
        } else if exponent >= EXPONENT_OF_ONE + 52 {
            significand * pow2((exponent - EXPONENT_OF_ONE - 52) as nat)
        } else {
            (significand as nat / pow2((EXPONENT_OF_ONE + 52 - exponent) as nat)) as int
        };
        if bits >= SIGN {
            Some(-whole)
        } else {
            Some(whole)
        }
    }
}

/// The place that a double names where it is used to count from zero: its
/// integer part, where it has one and that is neither negative nor greater
/// than `u64::MAX`. A NaN names no place, nor does a double of minus one or
/// less.
pub open spec fn position_of(bits: u64) -> Option<u64> {
    match integer_part(bits) {
        Some(part) => if 0 <= part <= u64::MAX {
            Some(part as u64)
        } else {
            None
        },
        None => None,
    }
}

/// A double of minus one or less, down to the negative infinity, names no
/// place: its integer part is negative or missing.
pub proof fn lemma_negative_names_no_place(bits: u64)
    requires
        bits >= SIGN,
        !is_nan(bits),
        magnitude(bits) / LEADING_ONE >= EXPONENT_OF_ONE,
    ensures
        position_of(bits) is None,
        integer_part(bits) matches Some(part) ==> part < 0,
{
    let exponent = magnitude(bits) / LEADING_ONE;
    let significand = LEADING_ONE + magnitude(bits) % LEADING_ONE;
    lemma2_to64();
    lemma2_to64_rest();
    if magnitude(bits) < INFINITY {
        if exponent >= EXPONENT_OF_ONE + 52 {
            let up = pow2((exponent - EXPONENT_OF_ONE - 52) as nat);
            lemma_pow2_pos((exponent - EXPONENT_OF_ONE - 52) as nat);
            assert(significand * up >= 1) by (nonlinear_arith)
                requires
                    significand >= 1,
                    up >= 1,
            ;
        } else {
            let shift = (EXPONENT_OF_ONE + 52 - exponent) as nat;
            let down = pow2(shift);
            lemma_pow2_pos(shift);
            if shift < 52 {
                lemma_pow2_strictly_increases(shift, 52);
            }
            lemma_fundamental_div_mod(significand as int, down as int);
            lemma_mod_bound(significand as int, down as int);
            assert(significand as nat / down >= 1) by (nonlinear_arith)
                requires
                    significand == down * (significand as nat / down) + significand as nat % down,
                    significand as nat % down < down,
                    significand >= down,
                    down > 0,
            ;
        }
    }
}

/// The bit pattern of the double nearest to the integer `value`, ties going
/// to the even significand.
pub open spec fn ieee_from_integer(value: int) -> u64 {
    if value < 0 {
        (SIGN + nearest_double((-value) as nat)) as u64
    } else {
        nearest_double(value as nat)
    }
}

impl Number {
    /// The number nearest to the natural number `value`.
    pub fn from_natural(value: u64) -> (number: Number)
        ensures
            number.bits == nearest_double(value as nat),
            number.bits <= INFINITY,
    {
        if value == 0 {
            proof {
                assert(0 * pow2(FRACTION as nat) == 0) by (nonlinear_arith);
            }
            Number { bits: 0 }
        } else {
            proof {
                lemma2_to64();
                lemma_pow2_strictly_increases(64, 120);
                assert(pow2(0) == 1);
                assert(value as nat * 1 + 0 == value as nat) by (nonlinear_arith);
            }
            Number { bits: pack(value as u128, 0, false, Ghost(0)) }
        }
    }

    /// The number nearest to the integer `value`.
    pub fn from_integer(value: i64) -> (number: Number)
        ensures
            number.bits == ieee_from_integer(value as int),
    {
        if value < 0 {
            let magnitude = Number::from_natural((-(value + 1)) as u64 + 1);
            Number { bits: SIGN + magnitude.bits }
        } else {
            Number::from_natural(value as u64)
        }
    }

    /// Whether two numbers are equal as doubles.
    pub fn equals(self, other: Number) -> (same: bool)
        ensures
            same == ieee_equal(self.bits, other.bits),
    {
        let lhs = if self.bits >= SIGN {
            self.bits - SIGN
        } else {
            self.bits
        };
        let rhs = if other.bits >= SIGN {
            other.bits - SIGN
        } else {
            other.bits
        };
        lhs <= INFINITY && rhs <= INFINITY && (self.bits == other.bits || (lhs == 0 && rhs == 0))
    }

    /// The place that a number names where it is used to count from zero.
    pub fn position(self) -> (place: Option<u64>)
        ensures
            place == position_of(self.bits),
    {
        let negative = self.bits >= SIGN;
        let pattern = if negative {
            self.bits - SIGN
        } else {
            self.bits
        };
        if pattern >= INFINITY {
            return None;
        }
        let exponent = pattern / LEADING_ONE;
        let significand = LEADING_ONE + pattern % LEADING_ONE;
        if exponent < EXPONENT_OF_ONE {
            return Some(0);
        }
        if negative {
            proof {
                lemma_negative_names_no_place(self.bits);
            }
            return None;
        }
        if exponent > EXPONENT_OF_ONE + 63 {
            proof {
                let shift = (exponent - EXPONENT_OF_ONE - 52) as nat;
                lemma2_to64();
                lemma_pow2_increases(12, shift);
                assert(significand * pow2(shift) > u64::MAX) by (nonlinear_arith)
                    requires
                        significand >= 0x10_0000_0000_0000,
                        pow2(shift) >= 0x1000,
                ;
            }
            None
        } else if exponent >= EXPONENT_OF_ONE + 52 {
            let shift = exponent - EXPONENT_OF_ONE - 52;
            proof {
                lemma2_to64();
                if shift < 11 {
                    lemma_pow2_strictly_increases(shift as nat, 11);
                }
                assert(significand * pow2(shift as nat) <= u64::MAX) by (nonlinear_arith)
                    requires
                        significand < 0x20_0000_0000_0000,
                        pow2(shift as nat) <= 0x800,
                ;
                lemma_u64_shl_is_mul(significand, shift);
            }
            Some(significand << shift)
        } else {
            let shift = EXPONENT_OF_ONE + 52 - exponent;
            proof {
                lemma_u64_shr_is_div(significand, shift);
            }
            Some(significand >> shift)
        }
    }
}

} // verus!
