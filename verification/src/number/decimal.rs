//! Decimal integers of any length, read into the nearest double.
//!
//! The digits are gathered, exactly, in a natural number of as many 32-bit
//! limbs as it needs. Past `LIMBS` limbs the number is greater than every
//! finite double, and no more is kept of it.

use crate::number::{Number, INFINITY};
use crate::number::rounding::{lemma_huge_is_infinite, lemma_pow2_increases, nearest_double, pack};
use vstd::arithmetic::power2::{lemma2_to64, lemma_pow2_adds, lemma_pow2_pos, pow2};
use vstd::prelude::*;

verus! {

/// The greatest number of limbs that is kept: 1152 bits.
pub const LIMBS: usize = 36;

/// Two to the power of 32: one more than the greatest limb.
pub const LIMB: u64 = 0x1_0000_0000;

/// Whether `byte` is an ASCII decimal digit.
pub open spec fn is_digit(byte: u8) -> bool {
    0x30 <= byte <= 0x39
}

/// Whether `digits` is a decimal integer: one ASCII digit or more.
pub open spec fn is_decimal(digits: Seq<u8>) -> bool {
    digits.len() > 0 && forall|i: int| 0 <= i < digits.len() ==> is_digit(#[trigger] digits[i])
}

/// The natural number that the decimal digits `digits` spell.
pub open spec fn decimal_value(digits: Seq<u8>) -> nat
    decreases digits.len(),
{
    if digits.len() == 0 {
        0
    } else {
        10 * decimal_value(digits.drop_last()) + (digits.last() - 0x30) as nat
    }
}

/// The bit pattern of the double nearest to the decimal integer that `digits`
/// spells, ties going to the even significand.
pub open spec fn ieee_from_decimal(digits: Seq<u8>) -> u64 {
    nearest_double(decimal_value(digits))
}

/// The natural number that `limbs` hold, the lowest limb first.
pub open spec fn limbs_value(limbs: Seq<u32>) -> nat
    decreases limbs.len(),
{
    if limbs.len() == 0 {
        0
    } else {
        limbs_value(limbs.drop_last()) + limbs.last() as nat * pow2(
            (32 * (limbs.len() - 1)) as nat,
        )
    }
}

/// Limbs hold less than two to the power of their number of bits.
pub proof fn lemma_limbs_bound(limbs: Seq<u32>)
    ensures
        limbs_value(limbs) < pow2((32 * limbs.len()) as nat),
    decreases limbs.len(),
{
    lemma2_to64();
    if limbs.len() > 0 {
        let below = (32 * (limbs.len() - 1)) as nat;
        lemma_limbs_bound(limbs.drop_last());
        lemma_pow2_adds(below, 32);
        assert(limbs.last() * pow2(below) <= (pow2(32) - 1) * pow2(below)) by (nonlinear_arith)
            requires
                limbs.last() <= pow2(32) - 1,
                pow2(below) >= 0,
        ;
        assert((pow2(32) - 1) * pow2(below) == pow2(32) * pow2(below) - pow2(below))
            by (nonlinear_arith);
        assert(below + 32 == 32 * limbs.len());
    }
}

/// Limbs hold zero where every limb is zero, and only there.
pub proof fn lemma_limbs_zero(limbs: Seq<u32>)
    ensures
        limbs_value(limbs) == 0 <==> forall|i: int| 0 <= i < limbs.len() ==> limbs[i] == 0,
    decreases limbs.len(),
{
    if limbs.len() > 0 {
        let below = (32 * (limbs.len() - 1)) as nat;
        let lower = limbs.drop_last();
        lemma_limbs_zero(lower);
        lemma_pow2_pos(below);
        assert(limbs.last() * pow2(below) == 0 <==> limbs.last() == 0) by (nonlinear_arith)
            requires
                pow2(below) > 0,
                limbs.last() >= 0,
        ;
        assert(limbs.last() * pow2(below) >= 0) by (nonlinear_arith)
            requires
                pow2(below) > 0,
                limbs.last() >= 0,
        ;
        if limbs_value(limbs) == 0 {
            assert forall|i: int| 0 <= i < limbs.len() implies limbs[i] == 0 by {
                if i < limbs.len() - 1 {
                    assert(lower[i] == limbs[i]);
                }
            }
        }
        if forall|i: int| 0 <= i < limbs.len() ==> limbs[i] == 0 {
            assert forall|i: int| 0 <= i < lower.len() implies lower[i] == 0 by {
                assert(lower[i] == limbs[i]);
            }
        }
    }
}

/// Whether `limbs` are in order: no more than are kept, and the highest not
/// zero.
pub open spec fn in_order(limbs: Seq<u32>) -> bool {
    limbs.len() <= LIMBS && (limbs.len() > 0 ==> limbs.last() != 0)
}

/// Appends the decimal digit `digit` to the number in `limbs`: ten times the
/// number, and the digit. Where the result needs more limbs than are kept,
/// the answer is `true` and `limbs` hold nothing of use.
pub fn append_digit(limbs: &mut Vec<u32>, digit: u8) -> (lost: bool)
    requires
        in_order(old(limbs)@),
        digit <= 9,
    ensures
        !lost ==> in_order(final(limbs)@) && limbs_value(final(limbs)@) == 10 * limbs_value(
            old(limbs)@,
        ) + digit,
        lost ==> 10 * limbs_value(old(limbs)@) + digit >= pow2(1152),
{
    let ghost before = limbs@;
    let mut carry: u64 = digit as u64;
    let mut i: usize = 0;
    proof {
        lemma2_to64();
        assert(limbs@.take(0) =~= Seq::<u32>::empty());
        assert(before.take(0) =~= Seq::<u32>::empty());
        assert(carry * pow2(0) == carry) by (nonlinear_arith)
            requires
                pow2(0) == 1,
        ;
    }
    while i < limbs.len()
        invariant
            i <= limbs.len(),
            limbs@.len() == before.len(),
            before.len() <= LIMBS,
            before.len() > 0 ==> before.last() != 0,
            forall|j: int| i <= j < before.len() ==> limbs@[j] == before[j],
            carry <= 9,
            limbs_value(limbs@.take(i as int)) + carry * pow2((32 * i) as nat) == 10 * limbs_value(
                before.take(i as int),
            ) + digit,
            i == before.len() && carry == 0 && i > 0 ==> limbs@.last() != 0,
        decreases limbs.len() - i,
    {
        let ghost shorter = limbs@.take(i as int);
        let ghost place = pow2((32 * i) as nat);
        let total = (limbs[i] as u64) * 10 + carry;
        let low = (total % LIMB) as u32;
        let high = total / LIMB;
        limbs.set(i, low);
        proof {
            lemma2_to64();
            lemma_pow2_adds((32 * i) as nat, 32);
            assert(32 * i + 32 == 32 * (i + 1));
            assert(limbs@.take(i + 1).drop_last() =~= shorter);
            assert(limbs@.take(i + 1).last() == low);
            assert(before.take(i + 1).drop_last() =~= before.take(i as int));
            assert(before.take(i + 1).last() == before[i as int]);
            assert(total == low + high * LIMB);
            assert(low * place + high * (place * pow2(32)) == (before[i as int] * 10 + carry)
                * place) by (nonlinear_arith)
                requires
                    before[i as int] * 10 + carry == low + high * pow2(32),
            ;
            assert((before[i as int] * 10 + carry) * place == 10 * (before[i as int] * place)
                + carry * place) by (nonlinear_arith);
        }
        carry = high;
        i += 1;
    }
    proof {
        assert(limbs@.take(limbs@.len() as int) =~= limbs@);
        assert(before.take(before.len() as int) =~= before);
    }
    if carry > 0 {
        if limbs.len() == LIMBS {
            proof {
                assert(carry * pow2(1152) >= pow2(1152)) by (nonlinear_arith)
                    requires
                        carry >= 1,
                        pow2(1152) >= 0,
                ;
            }
            return true;
        }
        let ghost full = limbs@;
        limbs.push(carry as u32);
        proof {
            assert(limbs@.drop_last() =~= full);
        }
    }
    false
}

/// The double nearest to the number in `limbs`.
pub fn nearest_to_limbs(limbs: &Vec<u32>) -> (bits: u64)
    requires
        in_order(limbs@),
    ensures
        bits == nearest_double(limbs_value(limbs@)),
{
    let count = limbs.len();
    if count == 0 {
        return 0;
    }
    let kept: usize = if count < 3 {
        count
    } else {
        3
    };
    let below = count - kept;
    let ghost lower = limbs@.take(below as int);
    let mut head: u128 = 0;
    let mut i = count;
    proof {
        lemma2_to64();
        lemma_pow2_adds(32, 32);
        lemma_pow2_adds(64, 32);
        assert(limbs@.take(count as int) =~= limbs@);
    }
    while i > below
        invariant
            below <= i <= count,
            count == limbs@.len(),
            count - below <= 3,
            head < pow2((32 * (count - i)) as nat),
            pow2(0) == 1,
            pow2(32) == 0x1_0000_0000,
            pow2(64) == 0x1_0000_0000_0000_0000,
            pow2(96) == 0x1_0000_0000_0000_0000_0000_0000,
            limbs_value(limbs@) == limbs_value(limbs@.take(i as int)) + head * pow2(
                (32 * i) as nat,
            ),
            i < count ==> head >= limbs@.last() * pow2((32 * (count - 1 - i)) as nat),
        decreases i,
    {
        let ghost longer = limbs@.take(i as int);
        let ghost place = pow2((32 * (i - 1)) as nat);
        let ghost above = pow2((32 * i) as nat);
        i -= 1;
        let limb = limbs[i];
        proof {
            lemma_pow2_adds((32 * i) as nat, 32);
            assert(32 * i + 32 == 32 * (i + 1));
            assert(longer.drop_last() =~= limbs@.take(i as int));
            assert(longer.last() == limb);
            lemma_pow2_adds((32 * (count - 1 - i)) as nat, 32);
            assert(32 * (count - 1 - i) + 32 == 32 * (count - i));
            assert(limb * place + head * (place * pow2(32)) == (head * pow2(32) + limb) * place)
                by (nonlinear_arith);
            assert(head * pow2(32) + limb < pow2((32 * (count - 1 - i)) as nat) * pow2(32))
                by (nonlinear_arith)
                requires
                    head + 1 <= pow2((32 * (count - 1 - i)) as nat),
                    limb < pow2(32),
            ;
            if i + 1 < count {
                assert(head * pow2(32) + limb >= limbs@.last() * (pow2(
                    (32 * (count - 2 - i)) as nat,
                ) * pow2(32))) by (nonlinear_arith)
                    requires
                        head >= limbs@.last() * pow2((32 * (count - 2 - i)) as nat),
                        limb >= 0,
                        pow2(32) >= 0,
                ;
                lemma_pow2_adds((32 * (count - 2 - i)) as nat, 32);
                assert(32 * (count - 2 - i) + 32 == 32 * (count - 1 - i));
            } else {
                assert(limb == limbs@.last());
                assert(limb * pow2(0) == limb) by (nonlinear_arith)
                    requires
                        pow2(0) == 1,
                ;
            }
            if count - 1 - i < 3 {
                lemma_pow2_increases((32 * (count - i)) as nat, 96);
            }
        }
        head = head * 0x1_0000_0000 + limb as u128;
    }
    let mut sticky = false;
    let mut j: usize = 0;
    while j < below
        invariant
            j <= below <= limbs@.len(),
            sticky == exists|k: int| 0 <= k < j && limbs@[k] != 0,
        decreases below - j,
    {
        if limbs[j] != 0 {
            sticky = true;
        }
        j += 1;
    }
    proof {
        lemma_limbs_bound(lower);
        lemma_limbs_zero(lower);
        assert(forall|k: int| 0 <= k < below ==> lower[k] == limbs@[k]);
        lemma_pow2_pos((32 * (kept - 1)) as nat);
        assert(head >= 1) by (nonlinear_arith)
            requires
                head >= limbs@.last() * pow2((32 * (kept - 1)) as nat),
                limbs@.last() >= 1,
                pow2((32 * (kept - 1)) as nat) >= 1,
        ;
        lemma_pow2_increases((32 * kept) as nat, 96);
        if below > 0 {
            assert(head >= pow2(64)) by (nonlinear_arith)
                requires
                    head >= limbs@.last() * pow2(64),
                    limbs@.last() >= 1,
                    pow2(64) >= 0,
            ;
        }
        assert(head as nat * pow2((32 * below) as nat) + limbs_value(lower) == limbs_value(
            limbs@,
        ));
        lemma_pow2_increases(96, 120);
        lemma_pow2_increases(53, 64);
    }
    pack(head, (32 * below) as u64, sticky, Ghost(limbs_value(lower)))
}

/// The number nearest to the decimal integer that `digits` spell.
pub fn from_decimal(digits: &[u8]) -> (number: Number)
    requires
        is_decimal(digits@),
    ensures
        number.bits == ieee_from_decimal(digits@),
{
    let mut limbs: Vec<u32> = Vec::new();
    let mut lost = false;
    let mut i: usize = 0;
    proof {
        assert(digits@.take(0) =~= Seq::<u8>::empty());
    }
    while i < digits.len()
        invariant
            i <= digits.len(),
            is_decimal(digits@),
            !lost ==> in_order(limbs@) && limbs_value(limbs@) == decimal_value(digits@.take(i as int)),
            lost ==> decimal_value(digits@.take(i as int)) >= pow2(1152),
        decreases digits.len() - i,
    {
        proof {
            assert(digits@.take(i + 1).drop_last() =~= digits@.take(i as int));
            assert(digits@.take(i + 1).last() == digits@[i as int]);
            assert(is_digit(digits@[i as int]));
        }
        if !lost {
            lost = append_digit(&mut limbs, digits[i] - 0x30);
        }
        i += 1;
    }
    proof {
        assert(digits@.take(digits@.len() as int) =~= digits@);
    }
    if lost {
        proof {
            lemma_pow2_increases(1024, 1152);
            lemma_huge_is_infinite(decimal_value(digits@));
        }
        Number { bits: INFINITY }
    } else {
        Number { bits: nearest_to_limbs(&limbs) }
    }
}

} // verus!
