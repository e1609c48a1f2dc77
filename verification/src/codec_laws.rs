//! What holds of the PCM codec, whatever the bytes and the samples.

use vstd::prelude::*;
use vstd::arithmetic::power2::{
    pow2,
    lemma2_to64,
    lemma_pow2_adds,
    lemma_pow2_pos,
    lemma_pow2_unfold,
};
use crate::codec::{
    decoded_channel,
    encoded_level,
    level_bytes,
    signed_value,
    FULL_LEVEL,
    HIGH_BYTE_SCALE,
    LOW_BYTE_SCALE,
};
use crate::rounding::{
    bit_length,
    count_in,
    lift,
    rounding_quantum,
    widened,
    lemma_bit_length_bounds,
    lemma_count_range,
    lemma_pow2_monotonic,
    lemma_ratio_top_whole,
    lemma_round_shift,
    lemma_scale_weak,
    lemma_widened,
};
use crate::single::Single;

verus! {

/// The word that the two bytes of a channel spell, low byte first, in two's
/// complement.
pub open spec fn signed_word(byte0: u8, byte1: u8) -> int {
    256 * signed_value(byte1) + byte0
}

/// A positive number below `2^digits` has `digits` digits at most.
proof fn lemma_digits(n: nat, digits: nat)
    requires
        0 < n < pow2(digits),
    ensures
        1 <= bit_length(n) <= digits,
{
    lemma_bit_length_bounds(n);
    if bit_length(n) > digits {
        lemma_pow2_monotonic(digits, (bit_length(n) - 1) as nat);
    }
}

/// Decoding loses nothing: the sample is the signed word of the two bytes
/// over 32768, to the last digit. The two terms of the formula and their sum
/// are each a number that single precision holds. So a decoded sample lies
/// from minus one up to, and not at, one.
pub proof fn law_decoded_exactly(byte0: u8, byte1: u8)
    ensures
        -32768 <= signed_word(byte0, byte1) <= 32767,
        decoded_channel(byte0, byte1) == Single::rounded(
            signed_word(byte0, byte1) < 0,
            vstd::math::abs(signed_word(byte0, byte1)),
            1,
            -15,
        ),
{
    reveal(decoded_channel);
    reveal(Single::sum);
    lemma2_to64();
    let high = signed_value(byte1);
    let coarse_size = vstd::math::abs(high);
    let fine_size = byte0 as nat;
    let word = signed_word(byte0, byte1);
    let high_scale = Single { bits: HIGH_BYTE_SCALE };
    let low_scale = Single { bits: LOW_BYTE_SCALE };
    assert(high_scale.exponent_field() == 134 && high_scale.fraction_field() == 0);
    assert(low_scale.exponent_field() == 142 && low_scale.fraction_field() == 0);
    if coarse_size > 0 {
        lemma_digits(coarse_size, 8);
    }
    if fine_size > 0 {
        lemma_digits(fine_size, 8);
    }
    Single::lemma_quotient_by_power(high < 0, coarse_size, 0, high_scale);
    Single::lemma_quotient_by_power(false, fine_size, 0, low_scale);
    let coarse = Single::rounded(high < 0, coarse_size, 1, -7);
    let fine = Single::rounded(false, fine_size, 1, -15);
    assert(Single::of_signed(high).quotient(high_scale) == coarse);
    assert(Single::of_integer(fine_size).quotient(low_scale) == fine);
    Single::lemma_exact_parts(high < 0, coarse_size, -7);
    Single::lemma_exact_parts(false, fine_size, -15);
    let unit = vstd::math::min(coarse.quantum(), fine.quantum());
    assert(unit <= -23);
    Single::lemma_exact_scaled(high < 0, coarse_size, -7, unit);
    Single::lemma_exact_scaled(false, fine_size, -15, unit);
    let low = (-15 - unit) as nat;
    let step = pow2(low);
    lemma_pow2_adds(8, low);
    lemma_pow2_pos(low);
    assert(pow2((-7 - unit) as nat) == 256 * step);
    let total = coarse.scaled_to(unit) + fine.scaled_to(unit);
    assert(total == word * step) by (nonlinear_arith)
        requires
            total == (if high < 0 {
                -(coarse_size * (256 * step))
            } else {
                (coarse_size * (256 * step)) as int
            }) + fine_size * step,
            word == 256 * high + fine_size,
            coarse_size == (if high < 0 {
                -high
            } else {
                high
            }),
    ;
    if word == 0 {
        assert(high == 0 && fine_size == 0);
        assert(total == 0) by (nonlinear_arith)
            requires
                total == word * step,
                word == 0,
        ;
    } else {
        let size = vstd::math::abs(word);
        assert(vstd::math::abs(total) == size * step && (total < 0) == (word < 0))
            by (nonlinear_arith)
            requires
                total == word * step,
                step > 0,
                size == (if word < 0 {
                    -word
                } else {
                    word
                }),
        ;
        assert(size * step > 0) by (nonlinear_arith)
            requires
                size > 0,
                step > 0,
        ;
        lemma_round_shift(size, low, 0, unit, 24, -149);
    }
}

/// What comes back of a sample that was encoded and decoded: its level over
/// 32768. The level was taken over 32767, so the sample that comes back is
/// not the one that went in, not even for a sample that is a level over
/// 32767 exactly.
pub proof fn law_round_trip(sample: Single)
    ensures
        -32768 <= encoded_level(sample) <= 32767,
        signed_word(
            level_bytes(encoded_level(sample)).0,
            level_bytes(encoded_level(sample)).1,
        ) == encoded_level(sample),
        decoded_channel(
            level_bytes(encoded_level(sample)).0,
            level_bytes(encoded_level(sample)).1,
        ) == Single::rounded(
            encoded_level(sample) < 0,
            vstd::math::abs(encoded_level(sample)),
            1,
            -15,
        ),
{
    reveal(encoded_level);
    let level = encoded_level(sample);
    let bytes = level_bytes(level);
    law_decoded_exactly(bytes.0, bytes.1);
}

/// A finite sample within the range from minus one to one has a negative
/// quantum, and its significand is no more than one counted in that quantum.
proof fn lemma_within_one(sample: Single)
    requires
        sample.is_finite(),
        !sample.beyond_one(),
    ensures
        sample.quantum() < 0,
        sample.significand() <= pow2((-sample.quantum()) as nat),
{
    let m = sample.significand();
    let q = sample.quantum();
    lemma2_to64();
    if q >= 0 {
        assert(m >= 0x80_0000);
        lemma_widened(m, q);
        lemma_scale_weak(1, m, lift(q));
        lemma_pow2_pos(lift(q));
        assert(m * pow2(lift(q)) >= m) by (nonlinear_arith)
            requires
                pow2(lift(q)) >= 1,
        ;
        assert(sample.whole() == widened(m, q) / 1);
        assert(false);
    } else {
        let d = pow2((-q) as nat);
        lemma_pow2_pos((-q) as nat);
        lemma_widened(1, -q);
        assert(1 * d == d) by (nonlinear_arith);
        assert(widened(1, -q) == d);
        assert(widened(m, q) == m);
        vstd::arithmetic::div_mod::lemma_fundamental_div_mod(m as int, d as int);
        vstd::arithmetic::div_mod::lemma_mod_pos_bound(m as int, d as int);
        let whole = m / d;
        assert(sample.whole() == whole);
        assert(sample.is_integral() == (m % d == 0));
        assert(m <= d) by (nonlinear_arith)
            requires
                m == d * whole + m % d,
                0 <= m % d < d,
                whole <= 1,
                whole == 1 ==> m % d == 0,
                whole >= 0,
        ;
    }
}

/// The arithmetic of a level: a value `below + small` of which `below` is
/// rounded to a multiple `near` of the unit `step`, and of which the whole
/// part `level` is then taken, with `one` standing for one. All are counted
/// in one unit. The level is within two of the value.
proof fn lemma_level_close(
    level: nat,
    count: nat,
    scale: nat,
    step: nat,
    one: nat,
    near: nat,
    below: nat,
    small: nat,
)
    requires
        scale > 0,
        step > 0,
        one == scale * step,
        near == count * step,
        level == count / scale,
        2 * vstd::math::abs(near - below) <= step,
        below == 32767 * small,
        small <= one,
    ensures
        level <= 32767,
        vstd::math::abs(level * one - (below + small)) < 2 * one,
{
    let rest = count % scale;
    vstd::arithmetic::div_mod::lemma_fundamental_div_mod(count as int, scale as int);
    vstd::arithmetic::div_mod::lemma_mod_pos_bound(count as int, scale as int);
    assert(near == level * one + rest * step) by (nonlinear_arith)
        requires
            near == count * step,
            count == scale * level + rest,
            one == scale * step,
    ;
    assert(rest * step <= one - step) by (nonlinear_arith)
        requires
            rest <= scale - 1,
            one == scale * step,
            step > 0,
    ;
    assert(step <= one) by (nonlinear_arith)
        requires
            one == scale * step,
            scale >= 1,
            step > 0,
    ;
    let held = level * one;
    assert(held <= near <= held + one - step);
    assert(below <= 32767 * one);
    assert(2 * near <= 2 * below + step && 2 * below <= 2 * near + step);
    assert(2 * near <= 65535 * one);
    assert(2 * held <= 2 * near);
    assert(one > 0);
    assert(2 * held < 65536 * one);
    assert(2 * held < 2 * 32768 * one);
    assert(level < 32768) by (nonlinear_arith)
        requires
            held == level * one,
            2 * held < 2 * 32768 * one,
            one > 0,
    ;
}

/// A sample from minus one to one comes back from encoding and decoding
/// less than two steps of 1/32768 away. What
/// comes back is the level over 32768, so the level is held against 32768
/// times the sample, both counted in units of `2^-149`, of which every
/// sample is a whole number. The level has the sample's sign or is zero, and
/// does not go beyond 32767.
pub proof fn law_round_trip_close(sample: Single)
    requires
        sample.is_finite(),
        !sample.beyond_one(),
    ensures
        -32767 <= encoded_level(sample) <= 32767,
        encoded_level(sample) < 0 ==> sample.negative(),
        encoded_level(sample) > 0 ==> !sample.negative(),
        vstd::math::abs(
            vstd::math::abs(encoded_level(sample)) * pow2(149) - 32768 * (sample.significand()
                * pow2((sample.quantum() + 149) as nat)),
        ) < 2 * pow2(149),
{
    reveal(encoded_level);
    reveal(Single::product);
    lemma2_to64();
    lemma_pow2_pos(149);
    let m = sample.significand();
    let q = sample.quantum();
    let negative = sample.negative();
    let full = Single { bits: FULL_LEVEL };
    assert(full.exponent_field() == 141 && full.fraction_field() == 0x7f_fe00);
    assert(full.significand() == 0xff_fe00 && full.quantum() == -9);
    assert(sample.clamped() == sample);
    let product = sample.product(full);
    if m == 0 {
        assert(m * full.significand() == 0) by (nonlinear_arith)
            requires
                m == 0,
        ;
        assert(product == Single::zero(negative));
        assert(product.exponent_field() == 0 && product.fraction_field() == 0);
        lemma_pow2_pos(149);
        assert(widened(0, -149) / widened(1, 149) == 0) by {
            lemma_widened(1, 149);
            assert(1 * pow2(149) == pow2(149)) by (nonlinear_arith);
        }
        assert(encoded_level(sample) == 0);
        assert(0 * pow2((q + 149) as nat) == 0) by (nonlinear_arith);
        assert(0 * pow2(149) == 0) by (nonlinear_arith);
    } else {
        lemma_within_one(sample);
        let wide = pow2((-q) as nat);
        let num = m * 0xff_fe00;
        let exp = q - 9;
        assert(num == m * full.significand());
        assert(num > 0) by (nonlinear_arith)
            requires
                num == m * 0xff_fe00,
                m > 0,
        ;
        assert(product == Single::rounded(negative, num, 1, exp));
        // the product is below 2^(24 - q)
        lemma_pow2_adds(24, (-q) as nat);
        assert(num < pow2((24 - q) as nat)) by (nonlinear_arith)
            requires
                num == m * 0xff_fe00,
                m <= wide,
                pow2((24 - q) as nat) == 0x100_0000 * wide,
                wide > 0,
        ;
        lemma_digits(num, (24 - q) as nat);
        lemma_ratio_top_whole(num);
        let quantum = rounding_quantum(num, 1, exp, 24, -149);
        assert(-149 <= quantum <= -9);
        let count = count_in(num, 1, exp, quantum);
        lemma_count_range(num, 1, exp, 24, -149);
        assert(count <= 0x100_0000);
        assert((quantum + 149) * 0x80_0000 + count < 0x7f80_0000) by (nonlinear_arith)
            requires
                quantum <= -9,
                count <= 0x100_0000,
        ;
        assert(product == Single::pack(negative, quantum, count));
        let field = (quantum + 149) * 0x80_0000 + count;
        assert(0 <= field) by (nonlinear_arith)
            requires
                field == (quantum + 149) * 0x80_0000 + count,
                quantum >= -149,
                count >= 0,
        ;
        assert(product.bits == field + (if negative {
            0x8000_0000int
        } else {
            0
        }));
        assert(product.is_finite());
        Single::law_rounded_nearest(negative, num, 1, exp, 0);
        let step = widened(1, quantum - exp);
        let below = widened(num, exp - quantum);
        let near = count * step;
        lemma_widened(1, quantum - exp);
        lemma_widened(num, exp - quantum);
        assert(1 * pow2(lift(quantum - exp)) == pow2(lift(quantum - exp))) by (nonlinear_arith);
        lemma_pow2_pos(lift(quantum - exp));
        // the whole part of the product
        let scale = pow2((-quantum) as nat);
        lemma_pow2_pos((-quantum) as nat);
        let level = count / scale;
        assert(product.whole() == level) by {
            let own = product.quantum();
            let digits = product.significand();
            lemma_widened(1, -own);
            assert(1 * pow2(lift(-own)) == pow2(lift(-own))) by (nonlinear_arith);
            assert(product.whole() == digits / pow2((-own) as nat));
            if count == 0x100_0000 {
                let half = pow2((-own) as nat);
                lemma_pow2_unfold((-quantum) as nat);
                lemma_pow2_pos((-own) as nat);
                assert(scale == 2 * half);
                vstd::arithmetic::div_mod::lemma_fundamental_div_mod(digits as int, half as int);
                vstd::arithmetic::div_mod::lemma_mod_pos_bound(digits as int, half as int);
                let whole = digits / half;
                let rest = digits % half;
                assert(count == whole * scale + 2 * rest) by (nonlinear_arith)
                    requires
                        digits == half * whole + rest,
                        count == 2 * digits,
                        scale == 2 * half,
                ;
                vstd::arithmetic::div_mod::lemma_fundamental_div_mod_converse(
                    count as int,
                    scale as int,
                    whole as int,
                    (2 * rest) as int,
                );
            }
        }
        // one, and the sample, in the unit of the comparison
        let fine = (-quantum + lift(quantum - exp)) as nat;
        let one = pow2(fine);
        lemma_pow2_adds((-quantum) as nat, lift(quantum - exp));
        assert(one == scale * step);
        let small = m * pow2((q + fine) as nat);
        lemma_pow2_adds(9, lift(exp - quantum));
        assert(9 + lift(exp - quantum) == q + fine);
        assert(below == 32767 * small) by (nonlinear_arith)
            requires
                below == num * pow2(lift(exp - quantum)),
                num == m * 0xff_fe00,
                small == m * pow2((q + fine) as nat),
                pow2((q + fine) as nat) == 512 * pow2(lift(exp - quantum)),
        ;
        lemma_pow2_adds((-q) as nat, (q + fine) as nat);
        assert(small <= one) by (nonlinear_arith)
            requires
                small == m * pow2((q + fine) as nat),
                m <= wide,
                one == wide * pow2((q + fine) as nat),
        ;
        assert(near == count * step);
        lemma_level_close(level, count, scale, step, one, near, below, small);
        assert(product.saturated_signed(32767) == (if negative {
            -(level as int)
        } else {
            level as int
        }));
        assert(vstd::math::abs(encoded_level(sample)) == level);
        // from the unit of the comparison to units of 2^-149
        let held = m * pow2((q + 149) as nat);
        let gap = level * pow2(149) - 32768 * held;
        let seen = level * one - (below + small);
        assert(below + small == 32768 * small);
        if fine >= 149 {
            let more = pow2((fine - 149) as nat);
            lemma_pow2_pos((fine - 149) as nat);
            lemma_pow2_adds(149, (fine - 149) as nat);
            lemma_pow2_adds((q + 149) as nat, (fine - 149) as nat);
            assert(seen == gap * more) by (nonlinear_arith)
                requires
                    seen == level * one - 32768 * small,
                    gap == level * pow2(149) - 32768 * held,
                    one == pow2(149) * more,
                    small == m * pow2((q + fine) as nat),
                    held == m * pow2((q + 149) as nat),
                    pow2((q + fine) as nat) == pow2((q + 149) as nat) * more,
            ;
            assert(vstd::math::abs(gap) < 2 * pow2(149)) by (nonlinear_arith)
                requires
                    seen == gap * more,
                    -2 * one < seen < 2 * one,
                    one == pow2(149) * more,
                    more > 0,
            ;
        } else {
            let more = pow2((149 - fine) as nat);
            lemma_pow2_pos((149 - fine) as nat);
            lemma_pow2_adds(fine, (149 - fine) as nat);
            lemma_pow2_adds((q + fine) as nat, (149 - fine) as nat);
            assert(gap == seen * more) by (nonlinear_arith)
                requires
                    seen == level * one - 32768 * small,
                    gap == level * pow2(149) - 32768 * held,
                    pow2(149) == one * more,
                    small == m * pow2((q + fine) as nat),
                    held == m * pow2((q + 149) as nat),
                    pow2((q + 149) as nat) == pow2((q + fine) as nat) * more,
            ;
            assert(vstd::math::abs(gap) < 2 * pow2(149)) by (nonlinear_arith)
                requires
                    gap == seen * more,
                    -2 * one < seen < 2 * one,
                    pow2(149) == one * more,
                    more > 0,
            ;
        }
    }
}

/// No sample encodes to a level beyond 32767 on either side: what is
/// beyond one is encoded as one is, and what is not a number as zero.
pub proof fn law_encoded_range(sample: Single)
    ensures
        -32767 <= encoded_level(sample) <= 32767,
        sample.is_nan() ==> encoded_level(sample) == 0,
        sample.beyond_one() ==> encoded_level(sample) == encoded_level(
            Single::one(sample.negative()),
        ),
{
    if sample.is_nan() {
        reveal(encoded_level);
        reveal(Single::product);
    } else if sample.beyond_one() {
        let one = Single::one(sample.negative());
        lemma_one_within(sample.negative());
        assert(encoded_level(sample) == encoded_level(one)) by {
            reveal(encoded_level);
        }
        law_round_trip_close(one);
    } else {
        law_round_trip_close(sample);
    }
}

/// One, of either sign, is finite and not beyond one.
proof fn lemma_one_within(negative: bool)
    ensures
        Single::one(negative).is_finite(),
        !Single::one(negative).beyond_one(),
        Single::one(negative).clamped() == Single::one(negative),
{
    let one = Single::one(negative);
    lemma2_to64();
    assert(one.exponent_field() == 127 && one.fraction_field() == 0);
    assert(one.significand() == 0x80_0000 && one.quantum() == -23);
    lemma_widened(1, 23);
    assert(1 * pow2(23) == pow2(23)) by (nonlinear_arith);
    assert(widened(0x80_0000, -23) == 0x80_0000);
    assert(widened(1, 23) == 0x80_0000);
    assert(one.whole() == widened(one.significand(), one.quantum()) / widened(
        1,
        -one.quantum(),
    ));
    assert(0x80_0000nat / 0x80_0000nat == 1 && 0x80_0000nat % 0x80_0000nat == 0);
    assert(one.whole() == 1);
    assert(one.is_integral());
}

} // verus!
