//! Single-precision numbers, held by their IEEE 754 binary32 encoding.
//!
//! Every audio sample is one of these. A finite number is
//! `significand * 2^quantum` with a sign; each operation is exact arithmetic
//! on those integers followed by one rounding to nearest, ties to even.
//! Whatever is not a number is returned as one fixed encoding.

use vstd::prelude::*;
use vstd::arithmetic::power2::{pow2, lemma_pow2_adds, lemma_pow2_pos, lemma2_to64};
use crate::rounding::{
    count_in,
    rounding_quantum,
    whole_count_in,
    widened,
    round_ratio,
    power_of_two,
    law_nearest_even,
    lemma_count_range,
    lemma_pow2_monotonic,
    lemma_pow2_127,
    lemma_round_dominant,
    lemma_round_exact,
    lemma_round_normal,
    lemma_round_shift,
    bit_length,
    lemma_scale_strict,
    lemma_scale_weak,
};

verus! {

/// A binary32 number, as the 32 bits of its encoding.
#[derive(Clone, Copy, Debug, PartialEq, Eq, Structural)]
pub struct Single {
    pub bits: u32,
}

/// The encoding of positive infinity, which is also the least magnitude that
/// is not finite.
pub const SINGLE_INFINITY: u32 = 0x7f80_0000;

/// The encoding that every invalid operation returns.
pub const SINGLE_NAN: u32 = 0x7fc0_0000;

/// The sign bit.
pub const SINGLE_SIGN: u32 = 0x8000_0000;

/// The weight of the hidden digit of a normal significand, `2^23`.
pub const SINGLE_HIDDEN: u32 = 0x80_0000;

/// The encoding of `1.0`.
pub const SINGLE_ONE: u32 = 0x3f80_0000;

impl Single {
    /// Whether the sign bit is set.
    pub open spec fn negative(self) -> bool {
        self.bits >= SINGLE_SIGN
    }

    /// The eight exponent bits.
    pub open spec fn exponent_field(self) -> nat {
        ((self.bits / SINGLE_HIDDEN) % 256) as nat
    }

    /// The twenty-three fraction bits.
    pub open spec fn fraction_field(self) -> nat {
        (self.bits % SINGLE_HIDDEN) as nat
    }

    /// Whether the encoding stands for no number.
    pub open spec fn is_nan(self) -> bool {
        self.exponent_field() == 255 && self.fraction_field() != 0
    }

    /// Whether the number is infinite.
    pub open spec fn is_infinite(self) -> bool {
        self.exponent_field() == 255 && self.fraction_field() == 0
    }

    /// Whether the number is finite: zero, subnormal or normal.
    pub open spec fn is_finite(self) -> bool {
        self.exponent_field() < 255
    }

    /// The integer that the digits of a finite number spell.
    pub open spec fn significand(self) -> nat {
        if self.exponent_field() == 0 {
            self.fraction_field()
        } else {
            SINGLE_HIDDEN as nat + self.fraction_field()
        }
    }

    /// The exponent of the unit in the last place of a finite number.
    pub open spec fn quantum(self) -> int {
        if self.exponent_field() == 0 {
            -149
        } else {
            self.exponent_field() - 150
        }
    }

    /// Whether the number is zero, of either sign.
    pub open spec fn is_zero(self) -> bool {
        self.is_finite() && self.significand() == 0
    }

    /// The integer part of the magnitude of a finite number.
    pub open spec fn whole(self) -> nat {
        whole_count_in(self.significand(), 1, self.quantum(), 0)
    }

    /// Whether a finite number is an integer.
    pub open spec fn is_integral(self) -> bool {
        widened(self.significand(), self.quantum()) % widened(1, -self.quantum()) == 0
    }

    /// Zero with the given sign.
    pub open spec fn zero(negative: bool) -> Single {
        Single {
            bits: if negative {
                SINGLE_SIGN
            } else {
                0
            },
        }
    }

    /// Infinity with the given sign.
    pub open spec fn infinity(negative: bool) -> Single {
        Single {
            bits: if negative {
                0xff80_0000
            } else {
                SINGLE_INFINITY
            },
        }
    }

    /// One with the given sign.
    pub open spec fn one(negative: bool) -> Single {
        Single {
            bits: if negative {
                0xbf80_0000
            } else {
                SINGLE_ONE
            },
        }
    }

    /// The same magnitude with the other sign.
    pub open spec fn opposite(self) -> Single {
        Single {
            bits: if self.bits >= SINGLE_SIGN {
                (self.bits - SINGLE_SIGN) as u32
            } else {
                (self.bits + SINGLE_SIGN) as u32
            },
        }
    }

    /// The number with magnitude `count * 2^quantum`, or infinity where that
    /// is beyond the finite range. `count` has at most 24 digits, or is
    /// `2^24`; `quantum` is at least -149, and is -149 where `count` has
    /// fewer than 24 digits. The hidden digit of `count` advances the
    /// exponent field by one, and a `count` of `2^24` by two.
    pub open spec fn pack(negative: bool, quantum: int, count: nat) -> Single {
        let field = (quantum + 149) * SINGLE_HIDDEN + count;
        let magnitude = if field >= SINGLE_INFINITY {
            SINGLE_INFINITY as int
        } else {
            field
        };
        Single {
            bits: if negative {
                (magnitude + SINGLE_SIGN) as u32
            } else {
                magnitude as u32
            },
        }
    }

    /// The number nearest to `(num / den) * 2^exp`, a tie going to the even
    /// significand, with the given sign.
    pub open spec fn rounded(negative: bool, num: nat, den: nat, exp: int) -> Single {
        if num == 0 {
            Single::zero(negative)
        } else {
            let quantum = rounding_quantum(num, den, exp, 24, -149);
            Single::pack(negative, quantum, count_in(num, den, exp, quantum))
        }
    }

    /// The number that the integer `n` converts to: the nearest one.
    pub open spec fn of_integer(n: nat) -> Single {
        Single::rounded(false, n, 1, 0)
    }

    /// The number that the signed integer `n` converts to.
    pub open spec fn of_signed(n: int) -> Single {
        Single::rounded(n < 0, vstd::math::abs(n), 1, 0)
    }

    /// The rounded product of two numbers.
    #[verifier::opaque]
    pub open spec fn product(self, other: Single) -> Single {
        let negative = self.negative() != other.negative();
        if self.is_nan() || other.is_nan() {
            Single { bits: SINGLE_NAN }
        } else if self.is_infinite() || other.is_infinite() {
            if self.is_zero() || other.is_zero() {
                Single { bits: SINGLE_NAN }
            } else {
                Single::infinity(negative)
            }
        } else {
            Single::rounded(
                negative,
                self.significand() * other.significand(),
                1,
                self.quantum() + other.quantum(),
            )
        }
    }

    /// A finite number counted in units of `2^quantum`, with its sign; the
    /// unit is no coarser than the number's own.
    pub open spec fn scaled_to(self, quantum: int) -> int
        recommends
            quantum <= self.quantum(),
    {
        let magnitude = self.significand() * pow2((self.quantum() - quantum) as nat);
        if self.negative() {
            -magnitude
        } else {
            magnitude as int
        }
    }

    /// The rounded sum of two numbers. An exact zero is positive unless both
    /// numbers are negative.
    #[verifier::opaque]
    pub open spec fn sum(self, other: Single) -> Single {
        if self.is_nan() || other.is_nan() {
            Single { bits: SINGLE_NAN }
        } else if self.is_infinite() {
            if other.is_infinite() && self.negative() != other.negative() {
                Single { bits: SINGLE_NAN }
            } else {
                self
            }
        } else if other.is_infinite() {
            other
        } else {
            let quantum = vstd::math::min(self.quantum(), other.quantum());
            let total = self.scaled_to(quantum) + other.scaled_to(quantum);
            if total == 0 {
                Single::zero(self.negative() && other.negative())
            } else {
                Single::rounded(total < 0, vstd::math::abs(total), 1, quantum)
            }
        }
    }

    /// The rounded difference of two numbers.
    pub open spec fn difference(self, other: Single) -> Single {
        self.sum(other.opposite())
    }

    /// The rounded quotient of two numbers.
    #[verifier::opaque]
    pub open spec fn quotient(self, other: Single) -> Single {
        let negative = self.negative() != other.negative();
        if self.is_nan() || other.is_nan() {
            Single { bits: SINGLE_NAN }
        } else if self.is_infinite() {
            if other.is_infinite() {
                Single { bits: SINGLE_NAN }
            } else {
                Single::infinity(negative)
            }
        } else if other.is_infinite() {
            Single::zero(negative)
        } else if other.is_zero() {
            if self.is_zero() {
                Single { bits: SINGLE_NAN }
            } else {
                Single::infinity(negative)
            }
        } else {
            Single::rounded(
                negative,
                self.significand(),
                other.significand(),
                self.quantum() - other.quantum(),
            )
        }
    }

    /// The count that a conversion to an unsigned integer of `limit` at most
    /// gives: the integer part, with nothing below zero and nothing above
    /// `limit`, and zero for what is not a number.
    pub open spec fn saturated(self, limit: nat) -> nat {
        if self.is_nan() || self.negative() {
            0
        } else if self.is_infinite() || self.whole() > limit {
            limit
        } else {
            self.whole()
        }
    }

    /// The count that rounding up to an integer and converting to an
    /// unsigned integer of `limit` at most gives.
    pub open spec fn saturated_up(self, limit: nat) -> nat {
        if self.is_nan() || self.negative() {
            0
        } else if self.is_infinite() {
            limit
        } else {
            let up = if self.is_integral() {
                self.whole()
            } else {
                self.whole() + 1
            };
            if up > limit {
                limit
            } else {
                up
            }
        }
    }

    /// The remainder of a division by one: what the integer part leaves of
    /// the magnitude, with the number's sign. It takes no rounding.
    pub open spec fn fraction(self) -> Single {
        if !self.is_finite() {
            Single { bits: SINGLE_NAN }
        } else if self.quantum() >= 0 {
            Single::zero(self.negative())
        } else {
            Single::rounded(
                self.negative(),
                self.significand() % pow2((-self.quantum()) as nat),
                1,
                self.quantum(),
            )
        }
    }

    /// The point between `self` and `other` at the share `weight` of the way:
    /// `self + (other - self) * weight`, each step rounded.
    pub open spec fn blend(self, other: Single, weight: Single) -> Single {
        self.sum(other.difference(self).product(weight))
    }

    /// The value that a conversion to a signed integer within `-limit - 1`
    /// and `limit` gives: the integer part with the sign, kept within the
    /// range, and zero for what is not a number.
    pub open spec fn saturated_signed(self, limit: nat) -> int {
        if self.is_nan() {
            0
        } else if self.negative() {
            if self.is_infinite() || self.whole() > limit + 1 {
                -(limit + 1)
            } else {
                -(self.whole() as int)
            }
        } else {
            if self.is_infinite() || self.whole() > limit {
                limit as int
            } else {
                self.whole() as int
            }
        }
    }

    /// Whether the magnitude is greater than one.
    pub open spec fn beyond_one(self) -> bool {
        self.is_infinite() || (self.is_finite() && (self.whole() > 1 || (self.whole() == 1
            && !self.is_integral())))
    }

    /// The number limited to the range from minus one to one; what is not a
    /// number stays as it is.
    pub open spec fn clamped(self) -> Single {
        if self.beyond_one() {
            Single::one(self.negative())
        } else {
            self
        }
    }

    /// A finite number is what its sign, quantum and significand pack to.
    pub proof fn lemma_pack_own(self)
        requires
            self.is_finite(),
        ensures
            Single::pack(self.negative(), self.quantum(), self.significand()) == self,
    {
        let field = self.exponent_field();
        let fraction = self.fraction_field();
        let sign: nat = if self.negative() {
            1
        } else {
            0
        };
        assert(self.bits == sign * 0x8000_0000 + field * 0x80_0000 + fraction);
        if field > 0 {
            assert((self.quantum() + 149) * SINGLE_HIDDEN + self.significand() == field * 0x80_0000
                + fraction) by (nonlinear_arith)
                requires
                    self.quantum() == field - 150,
                    self.significand() == 0x80_0000 + fraction,
            ;
        }
        assert(field * 0x80_0000 <= 254 * 0x80_0000) by (nonlinear_arith)
            requires
                field <= 254,
        ;
    }

    /// The order of the two numbers does not matter to their sum.
    pub proof fn law_sum_commutes(self, other: Single)
        ensures
            self.sum(other) == other.sum(self),
    {
        reveal(Single::sum);
        if self.is_infinite() && other.is_infinite() && self.negative() == other.negative() {
            assert(self.bits == other.bits);
        }
    }

    /// The order of the two numbers does not matter to their product.
    pub proof fn law_product_commutes(self, other: Single)
        ensures
            self.product(other) == other.product(self),
    {
        reveal(Single::product);
        assert(self.significand() * other.significand() == other.significand()
            * self.significand()) by (nonlinear_arith);
    }

    /// Adding positive zero changes nothing, unless the number is negative
    /// zero, which turns positive, or is not a number.
    pub proof fn lemma_sum_zero(self)
        requires
            !self.is_nan(),
            self.bits != SINGLE_SIGN,
        ensures
            Single::zero(false).sum(self) == self,
            self.sum(Single::zero(false)) == self,
    {
        reveal(Single::sum);
        let zero = Single::zero(false);
        assert(zero.exponent_field() == 0 && zero.fraction_field() == 0);
        if self.is_finite() {
            let d = (self.quantum() + 149) as nat;
            let m = self.significand();
            assert(vstd::math::min(zero.quantum(), self.quantum()) == -149);
            assert(vstd::math::min(self.quantum(), zero.quantum()) == -149);
            lemma2_to64();
            assert(zero.scaled_to(-149) == 0) by {
                assert(0 * pow2(0) == 0) by (nonlinear_arith);
            }
            if m == 0 {
                assert(0 * pow2(d) == 0) by (nonlinear_arith);
                assert(self.bits == 0);
            } else {
                lemma_round_exact(m, d, -149, 24, -149);
                self.lemma_pack_own();
                let total = self.scaled_to(-149);
                assert(vstd::math::abs(total) == m * pow2(d));
                assert((total < 0) == self.negative());
            }
        }
    }

    /// The parts of a number that was rounded from a whole number of at most
    /// 24 digits at an exponent within the normal range: nothing was lost.
    /// The significand is the whole number with its digits moved to the top,
    /// and the quantum makes up for the move.
    pub proof fn lemma_exact_parts(negative: bool, n: nat, exp: int)
        requires
            n < pow2(24),
            n > 0 ==> -149 <= bit_length(n) + exp - 24 <= 104,
        ensures
            Single::rounded(negative, n, 1, exp).is_finite(),
            Single::rounded(negative, n, 1, exp).negative() == negative,
            n == 0 ==> Single::rounded(negative, n, 1, exp).significand() == 0 && Single::rounded(
                negative,
                n,
                1,
                exp,
            ).quantum() == -149,
            n > 0 ==> bit_length(n) <= 24 && Single::rounded(negative, n, 1, exp).quantum()
                == bit_length(n) + exp - 24 && Single::rounded(negative, n, 1, exp).significand()
                == n * pow2((24 - bit_length(n)) as nat),
    {
        lemma2_to64();
        if n > 0 {
            lemma_round_normal(n, exp, 24, -149);
            let quantum = bit_length(n) + exp - 24;
            let count = n * pow2((24 - bit_length(n)) as nat);
            assert((quantum + 149) * SINGLE_HIDDEN + count < SINGLE_INFINITY) by (nonlinear_arith)
                requires
                    quantum <= 104,
                    count < 0x100_0000,
            ;
            Single::law_pack_value(negative, quantum, count);
        } else {
            let zero = Single::zero(negative);
            assert(zero.exponent_field() == 0 && zero.fraction_field() == 0);
        }
    }

    /// A number that was rounded from a whole number without loss, counted
    /// in a finer unit, is that whole number at the finer unit.
    pub proof fn lemma_exact_scaled(negative: bool, n: nat, exp: int, unit: int)
        requires
            n < pow2(24),
            n > 0 ==> -149 <= bit_length(n) + exp - 24 <= 104,
            unit <= exp,
            unit <= Single::rounded(negative, n, 1, exp).quantum(),
        ensures
            Single::rounded(negative, n, 1, exp).scaled_to(unit) == (if negative {
                -(n * pow2((exp - unit) as nat))
            } else {
                (n * pow2((exp - unit) as nat)) as int
            }),
    {
        Single::lemma_exact_parts(negative, n, exp);
        let rounded = Single::rounded(negative, n, 1, exp);
        if n > 0 {
            let up = (24 - bit_length(n)) as nat;
            let down = (rounded.quantum() - unit) as nat;
            lemma_pow2_adds(up, down);
            assert(up + down == exp - unit);
            assert((n * pow2(up)) * pow2(down) == n * pow2((exp - unit) as nat))
                by (nonlinear_arith)
                requires
                    pow2((exp - unit) as nat) == pow2(up) * pow2(down),
            ;
        } else {
            assert(0 * pow2((rounded.quantum() - unit) as nat) == 0) by (nonlinear_arith);
            assert(0 * pow2((exp - unit) as nat) == 0) by (nonlinear_arith);
        }
    }

    /// Dividing a number that holds a whole number without loss by a positive
    /// power of two lowers the exponent and loses nothing either.
    pub proof fn lemma_quotient_by_power(negative: bool, n: nat, exp: int, power: Single)
        requires
            n < pow2(24),
            n > 0 ==> -149 <= bit_length(n) + exp - 24 <= 104,
            power.is_finite(),
            !power.negative(),
            power.significand() == SINGLE_HIDDEN,
        ensures
            Single::rounded(negative, n, 1, exp).quotient(power) == Single::rounded(
                negative,
                n,
                1,
                exp - power.quantum() - 23,
            ),
    {
        reveal(Single::quotient);
        lemma2_to64();
        Single::lemma_exact_parts(negative, n, exp);
        let rounded = Single::rounded(negative, n, 1, exp);
        if n > 0 {
            let up = (24 - bit_length(n)) as nat;
            lemma_pow2_pos(up);
            assert(n * pow2(up) > 0) by (nonlinear_arith)
                requires
                    n > 0,
                    pow2(up) > 0,
            ;
            lemma_round_shift(n, up, 23, rounded.quantum() - power.quantum(), 24, -149);
        }
    }

    /// A number absorbs one that is too small to reach half of its unit in
    /// the last place.
    pub proof fn lemma_sum_dominant(self, small: Single)
        requires
            self.is_finite(),
            small.is_finite(),
            self.quantum() - small.quantum() >= 26,
        ensures
            self.sum(small) == self,
            small.sum(self) == self,
    {
        reveal(Single::sum);
        let quantum = small.quantum();
        let d = (self.quantum() - quantum) as nat;
        let m = self.significand();
        let r = small.significand();
        let subtract = self.negative() != small.negative();
        lemma2_to64();
        assert(pow2(0) == 1);
        assert(r * pow2(0) == r) by (nonlinear_arith)
            requires
                pow2(0) == 1,
        ;
        lemma_round_dominant(m, r, d, subtract, quantum, 24, -149);
        self.lemma_pack_own();
        let total = self.scaled_to(quantum) + small.scaled_to(quantum);
        let s: nat = if subtract {
            (m * pow2(d) - r) as nat
        } else {
            m * pow2(d) + r
        };
        assert(vstd::math::min(self.quantum(), small.quantum()) == quantum);
        assert(vstd::math::min(small.quantum(), self.quantum()) == quantum);
        assert(small.scaled_to(quantum) == (if small.negative() {
            -(r as int)
        } else {
            r as int
        }));
        assert(vstd::math::abs(total) == s);
        assert((total < 0) == self.negative());
        assert(total == small.scaled_to(quantum) + self.scaled_to(quantum));
    }

    /// Packing keeps the value: where `count * 2^quantum` is within the
    /// finite range, the number packed is finite, has the sign asked for, and
    /// its significand at its quantum is `count` at `quantum`.
    pub proof fn law_pack_value(negative: bool, quantum: int, count: nat)
        requires
            quantum >= -149,
            count <= 2 * SINGLE_HIDDEN,
            quantum > -149 ==> count >= SINGLE_HIDDEN,
            (quantum + 149) * SINGLE_HIDDEN + count < SINGLE_INFINITY,
        ensures
            Single::pack(negative, quantum, count).is_finite(),
            Single::pack(negative, quantum, count).negative() == negative,
            Single::pack(negative, quantum, count).significand() * pow2(
                (Single::pack(negative, quantum, count).quantum() + 149) as nat,
            ) == count * pow2((quantum + 149) as nat),
            count < 2 * SINGLE_HIDDEN ==> Single::pack(negative, quantum, count).significand()
                == count && Single::pack(negative, quantum, count).quantum() == quantum,
            count == 2 * SINGLE_HIDDEN ==> Single::pack(negative, quantum, count).significand()
                == SINGLE_HIDDEN && Single::pack(negative, quantum, count).quantum() == quantum
                + 1,
    {
        let packed = Single::pack(negative, quantum, count);
        let steps = quantum + 149;
        let field = steps * SINGLE_HIDDEN + count;
        assert(packed.bits == field + (if negative {
            SINGLE_SIGN as int
        } else {
            0
        }));
        if count < SINGLE_HIDDEN {
            assert(packed.exponent_field() == 0 && packed.fraction_field() == count);
        } else if count < 2 * SINGLE_HIDDEN {
            assert(packed.exponent_field() == steps + 1);
            assert(packed.fraction_field() == count - SINGLE_HIDDEN);
        } else {
            assert(packed.exponent_field() == steps + 2);
            assert(packed.fraction_field() == 0);
            vstd::arithmetic::power2::lemma_pow2_unfold((steps + 1) as nat);
            assert(SINGLE_HIDDEN * (2 * pow2(steps as nat)) == (2 * SINGLE_HIDDEN) * pow2(steps as nat))
                by (nonlinear_arith);
        }
    }

    /// Rounding gives the nearest number: where the result is finite, its
    /// value is a whole number of units `2^quantum`, that number is an
    /// integer nearest to the exact value counted in those units, and no
    /// integer `other` is nearer. The unit is the one that leaves 24
    /// digits, or the finest one.
    pub proof fn law_rounded_nearest(negative: bool, num: nat, den: nat, exp: int, other: int)
        requires
            num > 0,
            den > 0,
            Single::rounded(negative, num, den, exp).is_finite(),
        ensures
            ({
                let quantum = rounding_quantum(num, den, exp, 24, -149);
                let count = count_in(num, den, exp, quantum);
                let exact = widened(num, exp - quantum);
                let unit = widened(den, quantum - exp);
                let rounded = Single::rounded(negative, num, den, exp);
                &&& rounded.negative() == negative
                &&& rounded.significand() * pow2((rounded.quantum() + 149) as nat) == count
                    * pow2((quantum + 149) as nat)
                &&& rounded == Single::pack(negative, quantum, count)
                &&& quantum >= -149
                &&& count <= 2 * SINGLE_HIDDEN
                &&& count < 2 * SINGLE_HIDDEN ==> rounded.significand() == count
                    && rounded.quantum() == quantum
                &&& count == 2 * SINGLE_HIDDEN ==> rounded.significand() == SINGLE_HIDDEN
                    && rounded.quantum() == quantum + 1
                &&& 2 * vstd::math::abs(count * unit - exact) <= unit
                &&& vstd::math::abs(count * unit - exact) <= vstd::math::abs(other * unit - exact)
            }),
    {
        let quantum = rounding_quantum(num, den, exp, 24, -149);
        let count = count_in(num, den, exp, quantum);
        let exact = widened(num, exp - quantum);
        let unit = widened(den, quantum - exp);
        lemma_count_range(num, den, exp, 24, -149);
        law_nearest_even(exact, unit, other);
        lemma2_to64();
        lemma_pow2_adds(32, 21);
        let field = (quantum + 149) * SINGLE_HIDDEN + count;
        assert(field >= 0) by (nonlinear_arith)
            requires
                field == (quantum + 149) * SINGLE_HIDDEN + count,
                quantum + 149 >= 0,
        ;
        if field >= SINGLE_INFINITY {
            assert(Single::rounded(negative, num, den, exp).bits % 0x8000_0000 == SINGLE_INFINITY % 0x8000_0000);
            assert(false);
        }
        Single::law_pack_value(negative, quantum, count);
    }

    /// Wraps an encoding.
    pub fn from_bits(bits: u32) -> (s: Single)
        ensures
            s.bits == bits,
    {
        Single { bits }
    }

    /// The encoding.
    pub fn to_bits(self) -> (bits: u32)
        ensures
            bits == self.bits,
    {
        self.bits
    }

    /// Reads the sign bit.
    pub fn sign_of(self) -> (negative: bool)
        ensures
            negative == self.negative(),
    {
        self.bits >= SINGLE_SIGN
    }

    /// Reads the exponent bits.
    pub fn exponent_field_of(self) -> (field: u32)
        ensures
            field == self.exponent_field(),
            field < 256,
    {
        (self.bits / SINGLE_HIDDEN) % 256
    }

    /// Reads the fraction bits.
    pub fn fraction_field_of(self) -> (field: u32)
        ensures
            field == self.fraction_field(),
            field < SINGLE_HIDDEN,
    {
        self.bits % SINGLE_HIDDEN
    }

    /// Reads the significand, the hidden digit included.
    pub fn significand_of(self) -> (significand: u32)
        ensures
            significand == self.significand(),
            significand < 2 * SINGLE_HIDDEN,
    {
        if self.exponent_field_of() == 0 {
            self.fraction_field_of()
        } else {
            SINGLE_HIDDEN + self.fraction_field_of()
        }
    }

    /// Reads the exponent of the unit in the last place.
    pub fn quantum_of(self) -> (quantum: i32)
        ensures
            quantum == self.quantum(),
            -149 <= quantum <= 105,
    {
        let field: u32 = self.exponent_field_of();
        if field == 0 {
            -149
        } else {
            field as i32 - 150
        }
    }

    /// Tells whether the encoding stands for no number.
    pub fn check_nan(self) -> (nan: bool)
        ensures
            nan == self.is_nan(),
    {
        self.exponent_field_of() == 255 && self.fraction_field_of() != 0
    }

    /// Tells whether the number is infinite.
    pub fn check_infinite(self) -> (infinite: bool)
        ensures
            infinite == self.is_infinite(),
    {
        self.exponent_field_of() == 255 && self.fraction_field_of() == 0
    }

    /// Tells whether the number is zero, of either sign.
    pub fn check_zero(self) -> (zero: bool)
        ensures
            zero == self.is_zero(),
    {
        self.exponent_field_of() == 0 && self.fraction_field_of() == 0
    }

    /// Changes the sign.
    pub fn negated(self) -> (s: Single)
        ensures
            s == self.opposite(),
    {
        if self.bits >= SINGLE_SIGN {
            Single { bits: self.bits - SINGLE_SIGN }
        } else {
            Single { bits: self.bits + SINGLE_SIGN }
        }
    }

    /// Encodes `count * 2^quantum` with a sign, or infinity.
    pub fn packed(negative: bool, quantum: i32, count: u32) -> (s: Single)
        requires
            quantum >= -149,
            count <= 2 * SINGLE_HIDDEN,
        ensures
            s == Single::pack(negative, quantum as int, count as nat),
    {
        let steps: i64 = quantum as i64 + 149;
        let magnitude: u32 = if steps >= 255 {
            assert(steps * SINGLE_HIDDEN >= SINGLE_INFINITY) by (nonlinear_arith)
                requires
                    steps >= 255,
            ;
            SINGLE_INFINITY
        } else {
            assert(steps * SINGLE_HIDDEN <= 254 * SINGLE_HIDDEN) by (nonlinear_arith)
                requires
                    0 <= steps <= 254,
            ;
            assert(steps * SINGLE_HIDDEN >= 0) by (nonlinear_arith)
                requires
                    0 <= steps,
            ;
            let field: u32 = (steps as u32) * SINGLE_HIDDEN + count;
            if field >= SINGLE_INFINITY {
                SINGLE_INFINITY
            } else {
                field
            }
        };
        if negative {
            Single { bits: magnitude + SINGLE_SIGN }
        } else {
            Single { bits: magnitude }
        }
    }

    /// Rounds `(num / den) * 2^exp`, with a sign, to the nearest number.
    pub fn round(negative: bool, num: u128, den: u128, exp: i32) -> (s: Single)
        requires
            num < pow2(110),
            0 < den < pow2(64),
            -0x10000 <= exp <= 0x10000,
        ensures
            s == Single::rounded(negative, num as nat, den as nat, exp as int),
    {
        if num == 0 {
            if negative {
                Single { bits: SINGLE_SIGN }
            } else {
                Single { bits: 0 }
            }
        } else {
            let (count, quantum) = round_ratio(num, den, exp, 24, -149);
            proof {
                lemma2_to64();
            }
            Single::packed(negative, quantum, count as u32)
        }
    }

    /// Converts a count; counts of more than 24 digits are rounded.
    pub fn from_usize(n: usize) -> (s: Single)
        ensures
            s == Single::of_integer(n as nat),
    {
        proof {
            lemma2_to64();
            lemma_pow2_monotonic(64, 110);
            lemma_pow2_monotonic(0, 64);
        }
        Single::round(false, n as u128, 1, 0)
    }

    /// Converts a small signed integer, exactly.
    pub fn from_i16(n: i16) -> (s: Single)
        ensures
            s == Single::of_signed(n as int),
    {
        proof {
            lemma2_to64();
            lemma_pow2_monotonic(16, 110);
            lemma_pow2_monotonic(0, 64);
        }
        if n < 0 {
            let magnitude: u128 = (-(n as i32)) as u128;
            Single::round(true, magnitude, 1, 0)
        } else {
            Single::round(false, n as u128, 1, 0)
        }
    }

    /// Multiplies, rounding once.
    pub fn times(self, other: Single) -> (s: Single)
        ensures
            s == self.product(other),
    {
        reveal(Single::product);
        let negative: bool = self.sign_of() != other.sign_of();
        if self.check_nan() || other.check_nan() {
            return Single { bits: SINGLE_NAN };
        }
        if self.check_infinite() || other.check_infinite() {
            if self.check_zero() || other.check_zero() {
                return Single { bits: SINGLE_NAN };
            }
            if negative {
                return Single { bits: 0xff80_0000 };
            }
            return Single { bits: SINGLE_INFINITY };
        }
        let left: u32 = self.significand_of();
        let right: u32 = other.significand_of();
        proof {
            lemma2_to64();
            lemma_pow2_adds(24, 24);
            lemma_pow2_monotonic(48, 110);
            lemma_pow2_monotonic(0, 64);
            assert(left * right < pow2(24) * pow2(24)) by (nonlinear_arith)
                requires
                    left < pow2(24),
                    right < pow2(24),
            ;
            lemma_pow2_monotonic(110, 127);
            lemma_pow2_127();
        }
        let exact: u128 = (left as u128) * (right as u128);
        Single::round(negative, exact, 1, self.quantum_of() + other.quantum_of())
    }

    /// Adds, rounding once.
    pub fn plus(self, other: Single) -> (s: Single)
        ensures
            s == self.sum(other),
    {
        reveal(Single::sum);
        if self.check_nan() || other.check_nan() {
            return Single { bits: SINGLE_NAN };
        }
        let left_negative: bool = self.sign_of();
        let right_negative: bool = other.sign_of();
        if self.check_infinite() {
            if other.check_infinite() && left_negative != right_negative {
                return Single { bits: SINGLE_NAN };
            }
            return self;
        }
        if other.check_infinite() {
            return other;
        }
        let left_quantum: i32 = self.quantum_of();
        let right_quantum: i32 = other.quantum_of();
        if left_quantum - right_quantum >= 32 {
            proof {
                self.lemma_sum_dominant(other);
            }
            return self;
        }
        if right_quantum - left_quantum >= 32 {
            proof {
                other.lemma_sum_dominant(self);
            }
            return other;
        }
        let quantum: i32 = if left_quantum <= right_quantum {
            left_quantum
        } else {
            right_quantum
        };
        let left_scale: u128 = power_of_two((left_quantum - quantum) as u32);
        let right_scale: u128 = power_of_two((right_quantum - quantum) as u32);
        let left_significand: u32 = self.significand_of();
        let right_significand: u32 = other.significand_of();
        proof {
            lemma2_to64();
            lemma_pow2_127();
            lemma_pow2_adds(24, 31);
            lemma_pow2_adds(32, 23);
            lemma_pow2_adds(32, 24);
            lemma_pow2_monotonic((left_quantum - quantum) as nat, 31);
            lemma_pow2_monotonic((right_quantum - quantum) as nat, 31);
            lemma_pow2_monotonic(56, 110);
            lemma_pow2_monotonic(110, 127);
            lemma_pow2_monotonic(0, 64);
            assert(left_significand * left_scale < pow2(24) * pow2(31)) by (nonlinear_arith)
                requires
                    left_significand < pow2(24),
                    0 < left_scale <= pow2(31),
            ;
            assert(right_significand * right_scale < pow2(24) * pow2(31)) by (nonlinear_arith)
                requires
                    right_significand < pow2(24),
                    0 < right_scale <= pow2(31),
            ;
        }
        let left: u128 = (left_significand as u128) * left_scale;
        let right: u128 = (right_significand as u128) * right_scale;
        let negative: bool;
        let magnitude: u128;
        if left_negative == right_negative {
            negative = left_negative;
            magnitude = left + right;
        } else if left >= right {
            negative = left_negative;
            magnitude = left - right;
        } else {
            negative = right_negative;
            magnitude = right - left;
        }
        if magnitude == 0 {
            if left_negative && right_negative {
                Single { bits: SINGLE_SIGN }
            } else {
                Single { bits: 0 }
            }
        } else {
            Single::round(negative, magnitude, 1, quantum)
        }
    }

    /// Subtracts, rounding once.
    pub fn minus(self, other: Single) -> (s: Single)
        ensures
            s == self.difference(other),
    {
        self.plus(other.negated())
    }

    /// Divides, rounding once.
    pub fn divided_by(self, other: Single) -> (s: Single)
        ensures
            s == self.quotient(other),
    {
        reveal(Single::quotient);
        let negative: bool = self.sign_of() != other.sign_of();
        if self.check_nan() || other.check_nan() {
            return Single { bits: SINGLE_NAN };
        }
        if self.check_infinite() {
            if other.check_infinite() {
                return Single { bits: SINGLE_NAN };
            }
            if negative {
                return Single { bits: 0xff80_0000 };
            }
            return Single { bits: SINGLE_INFINITY };
        }
        if other.check_infinite() {
            if negative {
                return Single { bits: SINGLE_SIGN };
            }
            return Single { bits: 0 };
        }
        if other.check_zero() {
            if self.check_zero() {
                return Single { bits: SINGLE_NAN };
            }
            if negative {
                return Single { bits: 0xff80_0000 };
            }
            return Single { bits: SINGLE_INFINITY };
        }
        let left: u32 = self.significand_of();
        let right: u32 = other.significand_of();
        proof {
            lemma2_to64();
            lemma_pow2_monotonic(24, 110);
            lemma_pow2_monotonic(24, 64);
        }
        Single::round(negative, left as u128, right as u128, self.quantum_of() - other.quantum_of())
    }

    /// The integer part of a finite magnitude, where it is below `2^64`, and
    /// `2^64` where it is not; and whether the number is an integer.
    pub fn parts(self) -> (r: (u128, bool))
        requires
            self.is_finite(),
        ensures
            self.whole() < 0x1_0000_0000_0000_0000 ==> r.0 == self.whole(),
            self.whole() >= 0x1_0000_0000_0000_0000 ==> r.0 == 0x1_0000_0000_0000_0000,
            r.1 == self.is_integral(),
    {
        let significand: u32 = self.significand_of();
        let quantum: i32 = self.quantum_of();
        proof {
            lemma2_to64();
            lemma_pow2_127();
        }
        if quantum > 0 {
            proof {
                assert(widened(significand as nat, quantum as int) % 1 == 0);
            }
            if significand == 0 {
                proof {
                    assert(0 * pow2(quantum as nat) == 0) by (nonlinear_arith);
                }
                (0, true)
            } else if quantum >= 64 {
                proof {
                    lemma_pow2_monotonic(64, quantum as nat);
                    lemma_scale_weak(1, significand as nat, quantum as nat);
                }
                (0x1_0000_0000_0000_0000, true)
            } else {
                let scale: u128 = power_of_two(quantum as u32);
                proof {
                    lemma_scale_strict(significand as nat, pow2(24), quantum as nat);
                    lemma_pow2_adds(24, quantum as nat);
                    lemma_pow2_monotonic((24 + quantum) as nat, 127);
                }
                let exact: u128 = (significand as u128) * scale;
                if exact >= 0x1_0000_0000_0000_0000 {
                    (0x1_0000_0000_0000_0000, true)
                } else {
                    (exact, true)
                }
            }
        } else if quantum == 0 {
            (significand as u128, true)
        } else if quantum <= -64 {
            proof {
                lemma_pow2_monotonic(64, (-quantum) as nat);
                assert(1 * pow2((-quantum) as nat) == pow2((-quantum) as nat)) by (nonlinear_arith);
                vstd::arithmetic::div_mod::lemma_basic_div(
                    significand as int,
                    pow2((-quantum) as nat) as int,
                );
                vstd::arithmetic::div_mod::lemma_small_mod(
                    significand as nat,
                    pow2((-quantum) as nat),
                );
            }
            (0, significand == 0)
        } else {
            let scale: u128 = power_of_two((-quantum) as u32);
            proof {
                assert(1 * pow2((-quantum) as nat) == pow2((-quantum) as nat)) by (nonlinear_arith);
            }
            ((significand as u128) / scale, (significand as u128) % scale == 0)
        }
    }

    /// Converts to an index as a cast does: towards zero, saturating at the
    /// ends of the range, and with zero for what is not a number.
    pub fn to_usize(self) -> (n: usize)
        ensures
            n == self.saturated(usize::MAX as nat),
    {
        if self.sign_of() || self.check_nan() {
            return 0;
        }
        if self.check_infinite() {
            return usize::MAX;
        }
        let (whole, _) = self.parts();
        if whole > usize::MAX as u128 {
            usize::MAX
        } else {
            whole as usize
        }
    }

    /// Rounds up to an integer and converts to an index as a cast does.
    pub fn to_usize_up(self) -> (n: usize)
        ensures
            n == self.saturated_up(usize::MAX as nat),
            n >= self.saturated(usize::MAX as nat),
    {
        if self.sign_of() || self.check_nan() {
            return 0;
        }
        if self.check_infinite() {
            return usize::MAX;
        }
        let (whole, integral) = self.parts();
        let up: u128 = if integral {
            whole
        } else {
            whole + 1
        };
        if up > usize::MAX as u128 {
            usize::MAX
        } else {
            up as usize
        }
    }

    /// Takes the remainder of a division by one.
    pub fn fraction_of(self) -> (s: Single)
        ensures
            s == self.fraction(),
    {
        if self.exponent_field_of() == 255 {
            return Single { bits: SINGLE_NAN };
        }
        let negative: bool = self.sign_of();
        let quantum: i32 = self.quantum_of();
        if quantum >= 0 {
            if negative {
                return Single { bits: SINGLE_SIGN };
            }
            return Single { bits: 0 };
        }
        let significand: u32 = self.significand_of();
        proof {
            lemma2_to64();
            lemma_pow2_monotonic(24, 110);
            lemma_pow2_monotonic(0, 64);
        }
        if quantum <= -25 {
            proof {
                lemma_pow2_monotonic(25, (-quantum) as nat);
                vstd::arithmetic::div_mod::lemma_small_mod(
                    significand as nat,
                    pow2((-quantum) as nat),
                );
            }
            Single::round(negative, significand as u128, 1, quantum)
        } else {
            let scale: u128 = power_of_two((-quantum) as u32);
            let rest: u128 = (significand as u128) % scale;
            proof {
                lemma_pow2_monotonic((-quantum) as nat, 24);
                assert(rest < scale);
            }
            Single::round(negative, rest, 1, quantum)
        }
    }

    /// Moves from `self` towards `other` by the share `weight`.
    pub fn blended(self, other: Single, weight: Single) -> (s: Single)
        ensures
            s == self.blend(other, weight),
    {
        self.plus(other.minus(self).times(weight))
    }

    /// Converts to a 16-bit level as a cast does: towards zero, saturating at
    /// the ends of the range, and with zero for what is not a number.
    pub fn to_i16(self) -> (n: i16)
        ensures
            n == self.saturated_signed(i16::MAX as nat),
    {
        if self.check_nan() {
            return 0;
        }
        if self.check_infinite() {
            if self.sign_of() {
                return i16::MIN;
            }
            return i16::MAX;
        }
        let (whole, _) = self.parts();
        if self.sign_of() {
            if whole > 0x8000 {
                i16::MIN
            } else {
                (-(whole as i32)) as i16
            }
        } else {
            if whole > 0x7fff {
                i16::MAX
            } else {
                whole as i16
            }
        }
    }

    /// Limits the number to the range from minus one to one.
    pub fn clamp_unit(self) -> (s: Single)
        ensures
            s == self.clamped(),
    {
        if self.check_nan() {
            return self;
        }
        let beyond: bool = if self.check_infinite() {
            true
        } else {
            let (whole, integral) = self.parts();
            whole > 1 || (whole == 1 && !integral)
        };
        if beyond {
            if self.sign_of() {
                Single { bits: 0xbf80_0000 }
            } else {
                Single { bits: SINGLE_ONE }
            }
        } else {
            self
        }
    }
}

} // verus!
