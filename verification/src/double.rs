//! Double-precision numbers, held by their IEEE 754 binary64 encoding.
//!
//! Beat positions reach the library in this form. A finite number is
//! `significand * 2^quantum` with a sign; arithmetic is exact arithmetic on
//! those integers followed by one rounding to nearest, ties to even.

use vstd::prelude::*;
use vstd::arithmetic::power2::{pow2, lemma_pow2_pos, lemma_pow2_adds, lemma2_to64};
use crate::rounding::{
    count_in,
    rounding_quantum,
    whole_count_in,
    widened,
    round_ratio,
    power_of_two,
    law_nearest_even,
    lemma_count_range,
    lemma_pow2_monotonic,
    lemma_pow2_127,
    lemma_scale_strict,
    lemma_scale_weak,
};

verus! {

/// A binary64 number, as the 64 bits of its encoding.
#[derive(Clone, Copy, Debug, PartialEq, Eq, Structural)]
pub struct Double {
    pub bits: u64,
}

/// The encoding of positive infinity, which is also the least magnitude that
/// is not finite.
pub const DOUBLE_INFINITY: u64 = 0x7ff0_0000_0000_0000;

/// The encoding that every invalid operation returns.
pub const DOUBLE_NAN: u64 = 0x7ff8_0000_0000_0000;

/// The sign bit.
pub const DOUBLE_SIGN: u64 = 0x8000_0000_0000_0000;

/// The weight of the hidden digit of a normal significand, `2^52`.
pub const DOUBLE_HIDDEN: u64 = 0x10_0000_0000_0000;

impl Double {
    /// Whether the sign bit is set.
    pub open spec fn negative(self) -> bool {
        self.bits >= DOUBLE_SIGN
    }

    /// The eleven exponent bits.
    pub open spec fn exponent_field(self) -> nat {
        ((self.bits / DOUBLE_HIDDEN) % 2048) as nat
    }

    /// The fifty-two fraction bits.
    pub open spec fn fraction_field(self) -> nat {
        (self.bits % DOUBLE_HIDDEN) as nat
    }

    /// Whether the encoding stands for no number.
    pub open spec fn is_nan(self) -> bool {
        self.exponent_field() == 2047 && self.fraction_field() != 0
    }

    /// Whether the number is infinite.
    pub open spec fn is_infinite(self) -> bool {
        self.exponent_field() == 2047 && self.fraction_field() == 0
    }

    /// Whether the number is finite: zero, subnormal or normal.
    pub open spec fn is_finite(self) -> bool {
        self.exponent_field() < 2047
    }

    /// The integer that the digits of a finite number spell.
    pub open spec fn significand(self) -> nat {
        if self.exponent_field() == 0 {
            self.fraction_field()
        } else {
            DOUBLE_HIDDEN as nat + self.fraction_field()
        }
    }

    /// The exponent of the unit in the last place of a finite number.
    pub open spec fn quantum(self) -> int {
        if self.exponent_field() == 0 {
            -1074
        } else {
            self.exponent_field() - 1075
        }
    }

    /// Whether the number is zero, of either sign.
    pub open spec fn is_zero(self) -> bool {
        self.is_finite() && self.significand() == 0
    }

    /// The integer part of the magnitude of a finite number.
    pub open spec fn whole(self) -> nat {
        whole_count_in(self.significand(), 1, self.quantum(), 0)
    }

    /// Zero with the given sign.
    pub open spec fn zero(negative: bool) -> Double {
        Double {
            bits: if negative {
                DOUBLE_SIGN
            } else {
                0
            },
        }
    }

    /// Infinity with the given sign.
    pub open spec fn infinity(negative: bool) -> Double {
        Double {
            bits: if negative {
                0xfff0_0000_0000_0000
            } else {
                DOUBLE_INFINITY
            },
        }
    }

    /// The number with magnitude `count * 2^quantum`, or infinity where that
    /// is beyond the finite range. `count` has at most 53 digits, or is
    /// `2^53`; `quantum` is at least -1074, and is -1074 where `count` has
    /// fewer than 53 digits. The hidden digit of `count` advances the
    /// exponent field by one, and a `count` of `2^53` by two.
    pub open spec fn pack(negative: bool, quantum: int, count: nat) -> Double {
        let field = (quantum + 1074) * DOUBLE_HIDDEN + count;
        let magnitude = if field >= DOUBLE_INFINITY {
            DOUBLE_INFINITY as int
        } else {
            field
        };
        Double {
            bits: if negative {
                (magnitude + DOUBLE_SIGN) as u64
            } else {
                magnitude as u64
            },
        }
    }

    /// The number nearest to `(num / den) * 2^exp`, a tie going to the even
    /// significand, with the given sign.
    pub open spec fn rounded(negative: bool, num: nat, den: nat, exp: int) -> Double {
        if num == 0 {
            Double::zero(negative)
        } else {
            let quantum = rounding_quantum(num, den, exp, 53, -1074);
            Double::pack(negative, quantum, count_in(num, den, exp, quantum))
        }
    }

    /// The number that the integer `n` converts to. The conversion is exact.
    pub open spec fn of_integer(n: nat) -> Double {
        Double::rounded(false, n, 1, 0)
    }

    /// The rounded product of two numbers.
    #[verifier::opaque]
    pub open spec fn product(self, other: Double) -> Double {
        let negative = self.negative() != other.negative();
        if self.is_nan() || other.is_nan() {
            Double { bits: DOUBLE_NAN }
        } else if self.is_infinite() || other.is_infinite() {
            if self.is_zero() || other.is_zero() {
                Double { bits: DOUBLE_NAN }
            } else {
                Double::infinity(negative)
            }
        } else {
            Double::rounded(
                negative,
                self.significand() * other.significand(),
                1,
                self.quantum() + other.quantum(),
            )
        }
    }

    /// The rounded quotient of two numbers.
    #[verifier::opaque]
    pub open spec fn quotient(self, other: Double) -> Double {
        let negative = self.negative() != other.negative();
        if self.is_nan() || other.is_nan() {
            Double { bits: DOUBLE_NAN }
        } else if self.is_infinite() {
            if other.is_infinite() {
                Double { bits: DOUBLE_NAN }
            } else {
                Double::infinity(negative)
            }
        } else if other.is_infinite() {
            Double::zero(negative)
        } else if other.is_zero() {
            if self.is_zero() {
                Double { bits: DOUBLE_NAN }
            } else {
                Double::infinity(negative)
            }
        } else {
            Double::rounded(
                negative,
                self.significand(),
                other.significand(),
                self.quantum() - other.quantum(),
            )
        }
    }

    /// The count that a conversion to an unsigned integer of `limit` at most
    /// gives: the integer part, with nothing below zero and nothing above
    /// `limit`, and zero for what is not a number.
    pub open spec fn saturated(self, limit: nat) -> nat {
        if self.is_nan() || self.negative() {
            0
        } else if self.is_infinite() || self.whole() > limit {
            limit
        } else {
            self.whole()
        }
    }

    /// Packing keeps the value: where `count * 2^quantum` is within the
    /// finite range, the number packed is finite, has the sign asked for, and
    /// its significand at its quantum is `count` at `quantum`.
    pub proof fn law_pack_value(negative: bool, quantum: int, count: nat)
        requires
            quantum >= -1074,
            count <= 2 * DOUBLE_HIDDEN,
            quantum > -1074 ==> count >= DOUBLE_HIDDEN,
            (quantum + 1074) * DOUBLE_HIDDEN + count < DOUBLE_INFINITY,
        ensures
            Double::pack(negative, quantum, count).is_finite(),
            Double::pack(negative, quantum, count).negative() == negative,
            Double::pack(negative, quantum, count).significand() * pow2(
                (Double::pack(negative, quantum, count).quantum() + 1074) as nat,
            ) == count * pow2((quantum + 1074) as nat),
    {
        let packed = Double::pack(negative, quantum, count);
        let steps = quantum + 1074;
        let field = steps * DOUBLE_HIDDEN + count;
        assert(packed.bits == field + (if negative {
            DOUBLE_SIGN as int
        } else {
            0
        }));
        if count < DOUBLE_HIDDEN {
            assert(packed.exponent_field() == 0 && packed.fraction_field() == count);
        } else if count < 2 * DOUBLE_HIDDEN {
            assert(packed.exponent_field() == steps + 1);
            assert(packed.fraction_field() == count - DOUBLE_HIDDEN);
        } else {
            assert(packed.exponent_field() == steps + 2);
            assert(packed.fraction_field() == 0);
            vstd::arithmetic::power2::lemma_pow2_unfold((steps + 1) as nat);
            assert(DOUBLE_HIDDEN * (2 * pow2(steps as nat)) == (2 * DOUBLE_HIDDEN) * pow2(steps as nat))
                by (nonlinear_arith);
        }
    }

    /// Rounding gives the nearest number: where the result is finite, its
    /// value is a whole number of units `2^quantum`, that number is an
    /// integer nearest to the exact value counted in those units, and no
    /// integer `other` is nearer. The unit is the one that leaves 53
    /// digits, or the finest one.
    pub proof fn law_rounded_nearest(negative: bool, num: nat, den: nat, exp: int, other: int)
        requires
            num > 0,
            den > 0,
            Double::rounded(negative, num, den, exp).is_finite(),
        ensures
            ({
                let quantum = rounding_quantum(num, den, exp, 53, -1074);
                let count = count_in(num, den, exp, quantum);
                let exact = widened(num, exp - quantum);
                let unit = widened(den, quantum - exp);
                let rounded = Double::rounded(negative, num, den, exp);
                &&& rounded.negative() == negative
                &&& rounded.significand() * pow2((rounded.quantum() + 1074) as nat) == count
                    * pow2((quantum + 1074) as nat)
                &&& 2 * vstd::math::abs(count * unit - exact) <= unit
                &&& vstd::math::abs(count * unit - exact) <= vstd::math::abs(other * unit - exact)
            }),
    {
        let quantum = rounding_quantum(num, den, exp, 53, -1074);
        let count = count_in(num, den, exp, quantum);
        let exact = widened(num, exp - quantum);
        let unit = widened(den, quantum - exp);
        lemma_count_range(num, den, exp, 53, -1074);
        law_nearest_even(exact, unit, other);
        lemma2_to64();
        lemma_pow2_adds(32, 20);
        lemma_pow2_adds(32, 21);
        let field = (quantum + 1074) * DOUBLE_HIDDEN + count;
        assert(field >= 0) by (nonlinear_arith)
            requires
                field == (quantum + 1074) * DOUBLE_HIDDEN + count,
                quantum + 1074 >= 0,
        ;
        if field >= DOUBLE_INFINITY {
            assert(Double::rounded(negative, num, den, exp).bits % 0x8000_0000 == DOUBLE_INFINITY % 0x8000_0000);
            assert(false);
        }
        Double::law_pack_value(negative, quantum, count);
    }

    /// The value that a conversion to a signed integer within `-limit - 1`
    /// and `limit` gives: the integer part with the sign, so that a negative
    /// number is cut towards zero too, kept within the range, and zero for
    /// what is not a number.
    pub open spec fn saturated_signed(self, limit: nat) -> int {
        if self.is_nan() {
            0
        } else if self.negative() {
            if self.is_infinite() || self.whole() > limit + 1 {
                -(limit + 1)
            } else {
                -(self.whole() as int)
            }
        } else {
            if self.is_infinite() || self.whole() > limit {
                limit as int
            } else {
                self.whole() as int
            }
        }
    }

    /// Wraps an encoding.
    pub fn from_bits(bits: u64) -> (d: Double)
        ensures
            d.bits == bits,
    {
        Double { bits }
    }

    /// The encoding.
    pub fn to_bits(self) -> (bits: u64)
        ensures
            bits == self.bits,
    {
        self.bits
    }

    /// Reads the sign bit.
    pub fn sign_of(self) -> (negative: bool)
        ensures
            negative == self.negative(),
    {
        self.bits >= DOUBLE_SIGN
    }

    /// Reads the exponent bits.
    pub fn exponent_field_of(self) -> (field: u32)
        ensures
            field == self.exponent_field(),
            field < 2048,
    {
        ((self.bits / DOUBLE_HIDDEN) % 2048) as u32
    }

    /// Reads the fraction bits.
    pub fn fraction_field_of(self) -> (field: u64)
        ensures
            field == self.fraction_field(),
            field < DOUBLE_HIDDEN,
    {
        self.bits % DOUBLE_HIDDEN
    }

    /// Reads the significand, the hidden digit included.
    pub fn significand_of(self) -> (significand: u64)
        ensures
            significand == self.significand(),
            significand < 2 * DOUBLE_HIDDEN,
    {
        if self.exponent_field_of() == 0 {
            self.fraction_field_of()
        } else {
            DOUBLE_HIDDEN + self.fraction_field_of()
        }
    }

    /// Reads the exponent of the unit in the last place.
    pub fn quantum_of(self) -> (quantum: i32)
        ensures
            quantum == self.quantum(),
            -1074 <= quantum <= 972,
    {
        let field: u32 = self.exponent_field_of();
        if field == 0 {
            -1074
        } else {
            field as i32 - 1075
        }
    }

    /// Encodes `count * 2^quantum` with a sign, or infinity.
    pub fn packed(negative: bool, quantum: i32, count: u64) -> (d: Double)
        requires
            quantum >= -1074,
            count <= 2 * DOUBLE_HIDDEN,
        ensures
            d == Double::pack(negative, quantum as int, count as nat),
    {
        let steps: i64 = quantum as i64 + 1074;
        let magnitude: u64 = if steps >= 2047 {
            assert(steps * DOUBLE_HIDDEN >= DOUBLE_INFINITY) by (nonlinear_arith)
                requires
                    steps >= 2047,
            ;
            DOUBLE_INFINITY
        } else {
            assert(steps * DOUBLE_HIDDEN <= 2046 * DOUBLE_HIDDEN) by (nonlinear_arith)
                requires
                    0 <= steps <= 2046,
            ;
            assert(steps * DOUBLE_HIDDEN >= 0) by (nonlinear_arith)
                requires
                    0 <= steps,
            ;
            let field: u64 = (steps as u64) * DOUBLE_HIDDEN + count;
            if field >= DOUBLE_INFINITY {
                DOUBLE_INFINITY
            } else {
                field
            }
        };
        if negative {
            Double { bits: magnitude + DOUBLE_SIGN }
        } else {
            Double { bits: magnitude }
        }
    }

    /// Rounds `(num / den) * 2^exp`, with a sign, to the nearest number.
    pub fn round(negative: bool, num: u128, den: u128, exp: i32) -> (d: Double)
        requires
            num < pow2(110),
            0 < den < pow2(64),
            -0x10000 <= exp <= 0x10000,
        ensures
            d == Double::rounded(negative, num as nat, den as nat, exp as int),
    {
        if num == 0 {
            if negative {
                Double { bits: DOUBLE_SIGN }
            } else {
                Double { bits: 0 }
            }
        } else {
            let (count, quantum) = round_ratio(num, den, exp, 53, -1074);
            proof {
                lemma2_to64();
                lemma_pow2_adds(32, 21);
            }
            Double::packed(negative, quantum, count)
        }
    }

    /// Converts an integer; every 32-bit integer is a double.
    pub fn from_u32(n: u32) -> (d: Double)
        ensures
            d == Double::of_integer(n as nat),
    {
        proof {
            lemma2_to64();
            lemma_pow2_monotonic(32, 110);
            lemma_pow2_monotonic(0, 64);
        }
        Double::round(false, n as u128, 1, 0)
    }

    /// Converts a count; counts of more than 53 digits are rounded.
    pub fn from_usize(n: usize) -> (d: Double)
        ensures
            d == Double::of_integer(n as nat),
    {
        proof {
            lemma2_to64();
            lemma_pow2_monotonic(64, 110);
            lemma_pow2_monotonic(0, 64);
        }
        Double::round(false, n as u128, 1, 0)
    }

    /// Divides, rounding once.
    pub fn divided_by(self, other: Double) -> (d: Double)
        ensures
            d == self.quotient(other),
    {
        reveal(Double::quotient);
        let negative: bool = self.sign_of() != other.sign_of();
        let left_field: u32 = self.exponent_field_of();
        let right_field: u32 = other.exponent_field_of();
        let left_fraction: u64 = self.fraction_field_of();
        let right_fraction: u64 = other.fraction_field_of();
        if (left_field == 2047 && left_fraction != 0) || (right_field == 2047 && right_fraction
            != 0) {
            return Double { bits: DOUBLE_NAN };
        }
        if left_field == 2047 {
            if right_field == 2047 {
                return Double { bits: DOUBLE_NAN };
            }
            if negative {
                return Double { bits: 0xfff0_0000_0000_0000 };
            }
            return Double { bits: DOUBLE_INFINITY };
        }
        if right_field == 2047 {
            if negative {
                return Double { bits: DOUBLE_SIGN };
            }
            return Double { bits: 0 };
        }
        let left: u64 = self.significand_of();
        let right: u64 = other.significand_of();
        if right == 0 {
            if left == 0 {
                return Double { bits: DOUBLE_NAN };
            }
            if negative {
                return Double { bits: 0xfff0_0000_0000_0000 };
            }
            return Double { bits: DOUBLE_INFINITY };
        }
        proof {
            lemma2_to64();
            lemma_pow2_adds(32, 21);
            lemma_pow2_monotonic(53, 110);
            lemma_pow2_monotonic(53, 64);
        }
        Double::round(negative, left as u128, right as u128, self.quantum_of() - other.quantum_of())
    }

    /// Multiplies, rounding once.
    pub fn times(self, other: Double) -> (d: Double)
        ensures
            d == self.product(other),
    {
        reveal(Double::product);
        let negative: bool = self.sign_of() != other.sign_of();
        let left_field: u32 = self.exponent_field_of();
        let right_field: u32 = other.exponent_field_of();
        let left_fraction: u64 = self.fraction_field_of();
        let right_fraction: u64 = other.fraction_field_of();
        if (left_field == 2047 && left_fraction != 0) || (right_field == 2047 && right_fraction
            != 0) {
            return Double { bits: DOUBLE_NAN };
        }
        let left: u64 = self.significand_of();
        let right: u64 = other.significand_of();
        if left_field == 2047 || right_field == 2047 {
            if (left_field < 2047 && left == 0) || (right_field < 2047 && right == 0) {
                return Double { bits: DOUBLE_NAN };
            }
            if negative {
                return Double { bits: 0xfff0_0000_0000_0000 };
            }
            return Double { bits: DOUBLE_INFINITY };
        }
        proof {
            lemma2_to64();
            lemma_pow2_adds(53, 53);
            lemma_pow2_adds(32, 21);
            lemma_pow2_monotonic(106, 110);
            lemma_pow2_monotonic(0, 64);
            assert(left * right < pow2(53) * pow2(53)) by (nonlinear_arith)
                requires
                    left < pow2(53),
                    right < pow2(53),
            ;
            lemma_pow2_monotonic(110, 127);
            lemma_pow2_127();
        }
        let exact: u128 = (left as u128) * (right as u128);
        Double::round(negative, exact, 1, self.quantum_of() + other.quantum_of())
    }

    /// The integer part of a finite magnitude, where it is below `2^64`, and
    /// `2^64` where it is not.
    fn whole_part(self) -> (n: u128)
        requires
            self.is_finite(),
        ensures
            self.whole() < 0x1_0000_0000_0000_0000 ==> n == self.whole(),
            self.whole() >= 0x1_0000_0000_0000_0000 ==> n == 0x1_0000_0000_0000_0000,
    {
        let significand: u64 = self.significand_of();
        let quantum: i32 = self.quantum_of();
        proof {
            lemma2_to64();
            lemma_pow2_127();
        }
        if significand == 0 {
            proof {
                if quantum > 0 {
                    assert(0 * pow2(quantum as nat) == 0) by (nonlinear_arith);
                }
                lemma_pow2_pos((-quantum) as nat);
            }
            0
        } else if quantum >= 64 {
            proof {
                lemma_pow2_monotonic(64, quantum as nat);
                lemma_scale_weak(1, significand as nat, quantum as nat);
            }
            0x1_0000_0000_0000_0000
        } else if quantum > 0 {
            let scale: u128 = power_of_two(quantum as u32);
            proof {
                lemma_pow2_adds(32, 21);
                lemma_scale_strict(significand as nat, pow2(53), quantum as nat);
                lemma_pow2_adds(53, quantum as nat);
                lemma_pow2_monotonic((53 + quantum) as nat, 127);
            }
            let exact: u128 = (significand as u128) * scale;
            if exact >= 0x1_0000_0000_0000_0000 {
                0x1_0000_0000_0000_0000
            } else {
                exact
            }
        } else if quantum == 0 {
            significand as u128
        } else if quantum <= -64 {
            proof {
                lemma_pow2_monotonic(64, (-quantum) as nat);
                assert(1 * pow2((-quantum) as nat) == pow2((-quantum) as nat)) by (nonlinear_arith);
                vstd::arithmetic::div_mod::lemma_basic_div(
                    significand as int,
                    pow2((-quantum) as nat) as int,
                );
            }
            0
        } else {
            let scale: u128 = power_of_two((-quantum) as u32);
            proof {
                assert(1 * pow2((-quantum) as nat) == pow2((-quantum) as nat)) by (nonlinear_arith);
            }
            (significand as u128) / scale
        }
    }

    /// Converts to an index as a cast does: towards zero, saturating at the
    /// ends of the range, and with zero for what is not a number.
    pub fn to_usize(self) -> (n: usize)
        ensures
            n == self.saturated(usize::MAX as nat),
    {
        let field: u32 = self.exponent_field_of();
        if self.sign_of() || (field == 2047 && self.fraction_field_of() != 0) {
            return 0;
        }
        if field == 2047 {
            return usize::MAX;
        }
        let whole: u128 = self.whole_part();
        if whole > usize::MAX as u128 {
            usize::MAX
        } else {
            whole as usize
        }
    }

    /// Converts to a signed integer within `-limit - 1` and `limit` as a cast
    /// does: towards zero, saturating at the ends of the range, and with
    /// zero for what is not a number.
    pub fn to_signed(self, limit: u64) -> (n: i128)
        ensures
            n == self.saturated_signed(limit as nat),
    {
        let field: u32 = self.exponent_field_of();
        if field == 2047 && self.fraction_field_of() != 0 {
            return 0;
        }
        let negative: bool = self.sign_of();
        if field == 2047 {
            if negative {
                return -(limit as i128) - 1;
            }
            return limit as i128;
        }
        let whole: u128 = self.whole_part();
        if negative {
            if whole > limit as u128 + 1 {
                -(limit as i128) - 1
            } else {
                -(whole as i128)
            }
        } else {
            if whole > limit as u128 {
                limit as i128
            } else {
                whole as i128
            }
        }
    }

    /// Converts to a 32-bit count as a cast does: towards zero, saturating at
    /// the ends of the range, and with zero for what is not a number.
    pub fn to_u32(self) -> (n: u32)
        ensures
            n == self.saturated(u32::MAX as nat),
    {
        let field: u32 = self.exponent_field_of();
        if self.sign_of() || (field == 2047 && self.fraction_field_of() != 0) {
            return 0;
        }
        if field == 2047 {
            return u32::MAX;
        }
        let whole: u128 = self.whole_part();
        if whole > u32::MAX as u128 {
            u32::MAX
        } else {
            whole as u32
        }
    }
}

} // verus!
