//! Rounding of exact rationals to a binary floating-point grid.
//!
//! A value is handed over exactly, as `(num / den) * 2^exp`, and is rounded to
//! the nearest multiple of a power of two, ties going to the even multiple.
//! The two interchange formats of this crate share this module; they differ
//! in the number of significant digits and in the smallest quantum only.

use vstd::prelude::*;
use vstd::arithmetic::power2::{
    pow2,
    lemma_pow2_pos,
    lemma_pow2_adds,
    lemma_pow2_unfold,
    lemma_pow2_strictly_increases,
    lemma2_to64,
};
use vstd::bits::{lemma_u64_shl_is_mul, lemma_u64_pow2_no_overflow};

verus! {

/// The number of binary digits of `n`: the least `k` with `n < 2^k`.
pub open spec fn bit_length(n: nat) -> nat
    decreases n,
{
    if n == 0 {
        0
    } else {
        1 + bit_length(n / 2)
    }
}

/// `n * 2^shift` where `shift` is positive, `n` itself where it is not.
pub open spec fn widened(n: nat, shift: int) -> nat {
    if shift > 0 {
        n * pow2(shift as nat)
    } else {
        n
    }
}

/// `n / d` rounded to the nearest integer; a tie goes to the even neighbour.
pub open spec fn nearest_even(n: nat, d: nat) -> nat
    recommends
        d > 0,
{
    let below = n / d;
    let rest = n % d;
    if 2 * rest > d || (2 * rest == d && below % 2 == 1) {
        below + 1
    } else {
        below
    }
}

/// The least `t` with `num / den < 2^t`, for a positive ratio.
pub open spec fn ratio_top(num: nat, den: nat) -> int {
    let k = bit_length(num) - bit_length(den);
    if widened(num, -k) >= widened(den, k) {
        k + 1
    } else {
        k
    }
}

/// The exponent of the unit in the last place that `(num / den) * 2^exp` is
/// rounded to: `precision` digits are kept, but no unit is finer than
/// `2^floor`.
pub open spec fn rounding_quantum(num: nat, den: nat, exp: int, precision: nat, floor: int) -> int {
    let fine = ratio_top(num, den) + exp - precision;
    if fine > floor {
        fine
    } else {
        floor
    }
}

/// `(num / den) * 2^exp` counted in units of `2^quantum`, rounded to the
/// nearest count, ties to even.
pub open spec fn count_in(num: nat, den: nat, exp: int, quantum: int) -> nat {
    nearest_even(widened(num, exp - quantum), widened(den, quantum - exp))
}

/// `(num / den) * 2^exp` counted in units of `2^quantum`, the fraction dropped.
pub open spec fn whole_count_in(num: nat, den: nat, exp: int, quantum: int) -> nat {
    widened(num, exp - quantum) / widened(den, quantum - exp)
}

/// Powers of two do not fall as the exponent grows.
pub proof fn lemma_pow2_monotonic(a: nat, b: nat)
    requires
        a <= b,
    ensures
        pow2(a) <= pow2(b),
{
    if a < b {
        lemma_pow2_strictly_increases(a, b);
    }
}

/// A positive number lies between the two powers of two that its number of
/// digits names.
pub proof fn lemma_bit_length_bounds(n: nat)
    requires
        n > 0,
    ensures
        bit_length(n) >= 1,
        pow2((bit_length(n) - 1) as nat) <= n < pow2(bit_length(n)),
    decreases n,
{
    if n == 1 {
        assert(bit_length(0) == 0);
        assert(bit_length(1) == 1 + bit_length(0));
        lemma2_to64();
    } else {
        let half = n / 2;
        lemma_bit_length_bounds(half);
        let k = bit_length(half);
        assert(bit_length(n) == k + 1);
        lemma_pow2_unfold(k);
        lemma_pow2_unfold(k + 1);
    }
}

/// A number between two neighbouring powers of two has as many digits as
/// the larger one's exponent says.
pub proof fn lemma_bit_length_is(n: nat, k: nat)
    requires
        n < pow2(k),
        k >= 1 ==> pow2((k - 1) as nat) <= n,
    ensures
        bit_length(n) == k,
{
    if n == 0 {
        if k >= 1 {
            lemma_pow2_pos((k - 1) as nat);
        }
    } else {
        lemma_bit_length_bounds(n);
        let len = bit_length(n);
        if k == 0 {
            lemma2_to64();
        } else if len < k {
            lemma_pow2_monotonic(len, (k - 1) as nat);
        } else if len > k {
            lemma_pow2_monotonic(k, (len - 1) as nat);
        }
    }
}

/// Computes `2^k`.
pub fn power_of_two(k: u32) -> (p: u128)
    requires
        k < 128,
    ensures
        p == pow2(k as nat),
        p > 0,
{
    proof {
        lemma_pow2_pos(k as nat);
    }
    if k < 64 {
        let low: u64 = k as u64;
        proof {
            lemma_u64_pow2_no_overflow(k as nat);
            lemma_u64_shl_is_mul(1u64, low);
        }
        let p: u64 = 1u64 << low;
        p as u128
    } else {
        let high: u64 = (k - 64) as u64;
        proof {
            lemma_u64_pow2_no_overflow((k - 64) as nat);
            lemma_u64_shl_is_mul(1u64, high);
            lemma_pow2_adds(64, (k - 64) as nat);
            lemma2_to64();
        }
        let p: u64 = 1u64 << high;
        (p as u128) * 0x1_0000_0000_0000_0000u128
    }
}

/// Computes the number of binary digits of `n`.
pub fn bit_length_of(n: u128) -> (len: u32)
    ensures
        len == bit_length(n as nat),
        len <= 128,
        n > 0 ==> len >= 1,
{
    let mut rest: u128 = n;
    let mut len: u32 = 0;
    proof {
        lemma2_to64();
    }
    while rest > 0
        invariant
            len + bit_length(rest as nat) == bit_length(n as nat),
            rest > 0 ==> rest * pow2(len as nat) <= n,
            len <= 128,
            rest > 0 ==> len < 128,
        decreases rest,
    {
        proof {
            let r = rest as nat;
            assert(bit_length(r) == 1 + bit_length(r / 2));
            lemma_pow2_unfold((len + 1) as nat);
            if rest / 2 > 0 {
                assert((rest / 2) * pow2((len + 1) as nat) <= rest * pow2(len as nat))
                    by (nonlinear_arith)
                    requires
                        pow2((len + 1) as nat) == 2 * pow2(len as nat),
                        rest / 2 * 2 <= rest,
                ;
                if len + 1 >= 128 {
                    lemma_pow2_monotonic(128, (len + 1) as nat);
                    lemma_pow2_adds(64, 64);
                    lemma2_to64();
                    assert((rest / 2) * pow2((len + 1) as nat) >= pow2((len + 1) as nat))
                        by (nonlinear_arith)
                        requires
                            rest / 2 >= 1,
                    ;
                }
            }
        }
        rest = rest / 2;
        len = len + 1;
    }
    proof {
        assert(bit_length(0) == 0);
        if n > 0 {
            assert(len != 0);
        }
    }
    len
}

/// The value of `2^127`, the largest power of two in 128 bits.
pub proof fn lemma_pow2_127()
    ensures
        pow2(127) == 0x8000_0000_0000_0000_0000_0000_0000_0000,
{
    lemma_pow2_adds(32, 31);
    lemma_pow2_adds(63, 64);
    lemma2_to64();
    assert(0x1_0000_0000 * 0x8000_0000 == 0x8000_0000_0000_0000) by (nonlinear_arith);
    assert(0x8000_0000_0000_0000 * 0x1_0000_0000_0000_0000
        == 0x8000_0000_0000_0000_0000_0000_0000_0000) by (nonlinear_arith);
}

/// Scaling both sides by a power of two keeps a strict inequality.
pub proof fn lemma_scale_strict(a: nat, b: nat, k: nat)
    requires
        a < b,
    ensures
        a * pow2(k) < b * pow2(k),
{
    lemma_pow2_pos(k);
    assert(a * pow2(k) < b * pow2(k)) by (nonlinear_arith)
        requires
            a < b,
            pow2(k) > 0,
    ;
}

/// Scaling both sides by a power of two keeps a weak inequality.
pub proof fn lemma_scale_weak(a: nat, b: nat, k: nat)
    requires
        a <= b,
    ensures
        a * pow2(k) <= b * pow2(k),
{
    assert(a * pow2(k) <= b * pow2(k)) by (nonlinear_arith)
        requires
            a <= b,
    ;
}

/// The positive part of a shift, as an exponent.
pub open spec fn lift(shift: int) -> nat {
    if shift > 0 {
        shift as nat
    } else {
        0
    }
}

/// `widened` as one product.
pub proof fn lemma_widened(n: nat, shift: int)
    ensures
        widened(n, shift) == n * pow2(lift(shift)),
{
    lemma2_to64();
    assert(n * 1 == n) by (nonlinear_arith);
}

/// An inequality between scaled numbers survives any change of the two
/// scales that favours the larger side.
pub proof fn lemma_cross_less(x: nat, y: nat, a0: nat, b0: nat, a1: nat, b1: nat)
    requires
        x * pow2(a0) < y * pow2(b0),
        b0 + a1 <= b1 + a0,
    ensures
        x * pow2(a1) < y * pow2(b1),
{
    let pa0 = pow2(a0);
    let pa1 = pow2(a1);
    let pb0 = pow2(b0);
    let pb1 = pow2(b1);
    lemma_pow2_pos(a0);
    lemma_pow2_pos(a1);
    lemma_pow2_adds(b0, a1);
    lemma_pow2_adds(b1, a0);
    lemma_pow2_monotonic(b0 + a1, b1 + a0);
    assert(pb0 * pa1 <= pb1 * pa0);
    assert((x * pa0) * pa1 < (y * pb0) * pa1) by (nonlinear_arith)
        requires
            x * pa0 < y * pb0,
            pa1 > 0,
    ;
    assert((y * pb0) * pa1 <= (y * pb1) * pa0) by (nonlinear_arith)
        requires
            pb0 * pa1 <= pb1 * pa0,
    ;
    assert(x * pa1 < y * pb1) by (nonlinear_arith)
        requires
            (x * pa0) * pa1 < (y * pb1) * pa0,
            pa0 > 0,
    ;
}

/// The weak form of `lemma_cross_less`, with the scales favouring the side
/// that is already at least as large.
pub proof fn lemma_cross_at_least(x: nat, y: nat, a0: nat, b0: nat, a1: nat, b1: nat)
    requires
        x * pow2(a0) >= y * pow2(b0),
        a0 + b1 <= a1 + b0,
    ensures
        x * pow2(a1) >= y * pow2(b1),
{
    let pa0 = pow2(a0);
    let pa1 = pow2(a1);
    let pb0 = pow2(b0);
    let pb1 = pow2(b1);
    lemma_pow2_pos(b0);
    lemma_pow2_pos(b1);
    lemma_pow2_adds(a0, b1);
    lemma_pow2_adds(a1, b0);
    lemma_pow2_monotonic(a0 + b1, a1 + b0);
    assert(pa0 * pb1 <= pa1 * pb0);
    assert((x * pa0) * pb1 >= (y * pb0) * pb1) by (nonlinear_arith)
        requires
            x * pa0 >= y * pb0,
            pb1 > 0,
    ;
    assert((x * pa0) * pb1 <= (x * pa1) * pb0) by (nonlinear_arith)
        requires
            pa0 * pb1 <= pa1 * pb0,
    ;
    assert((y * pb0) * pb1 == (y * pb1) * pb0) by (nonlinear_arith);
    assert(x * pa1 >= y * pb1) by (nonlinear_arith)
        requires
            (x * pa1) * pb0 >= (y * pb1) * pb0,
            pb0 > 0,
    ;
}

/// A positive ratio lies in the binade that `ratio_top` names:
/// `2^(t-1) <= num / den < 2^t`.
pub proof fn lemma_ratio_top_bounds(num: nat, den: nat)
    requires
        num > 0,
        den > 0,
    ensures
        widened(num, -ratio_top(num, den)) < widened(den, ratio_top(num, den)),
        widened(num, 1 - ratio_top(num, den)) >= widened(den, ratio_top(num, den) - 1),
{
    lemma_bit_length_bounds(num);
    lemma_bit_length_bounds(den);
    let a = bit_length(num);
    let b = bit_length(den);
    let k = a - b;
    if widened(num, -k) >= widened(den, k) {
        if k >= 0 {
            // den * 2^(k+1) >= 2^(b-1) * 2^(k+1) = 2^a > num
            lemma_scale_weak(pow2((b - 1) as nat), den, (k + 1) as nat);
            lemma_pow2_adds((b - 1) as nat, (k + 1) as nat);
        } else if k < -1 {
            // num * 2^(-k-1) < 2^a * 2^(-k-1) = 2^(b-1) <= den
            lemma_scale_strict(num, pow2(a), (-k - 1) as nat);
            lemma_pow2_adds(a, (-k - 1) as nat);
        }
    } else {
        if k >= 2 {
            // den * 2^(k-1) < 2^b * 2^(k-1) = 2^(a-1) <= num
            lemma_scale_strict(den, pow2(b), (k - 1) as nat);
            lemma_pow2_adds(b, (k - 1) as nat);
        } else if k <= 0 {
            // num * 2^(1-k) >= 2^(a-1) * 2^(1-k) = 2^b > den
            lemma_scale_weak(pow2((a - 1) as nat), num, (1 - k) as nat);
            lemma_pow2_adds((a - 1) as nat, (1 - k) as nat);
        }
    }
}

/// Computes the binade of a positive ratio.
pub fn ratio_top_of(num: u128, den: u128) -> (top: i32)
    requires
        0 < num < pow2(110),
        0 < den < pow2(64),
    ensures
        top == ratio_top(num as nat, den as nat),
        -63 <= top <= 110,
{
    let ln: u32 = bit_length_of(num);
    let ld: u32 = bit_length_of(den);
    proof {
        lemma_bit_length_bounds(num as nat);
        lemma_bit_length_bounds(den as nat);
        if ln > 110 {
            lemma_pow2_monotonic(110, (ln - 1) as nat);
        }
        if ld > 64 {
            lemma_pow2_monotonic(64, (ld - 1) as nat);
        }
        lemma2_to64();
    }
    if ln >= ld {
        let k: u32 = ln - ld;
        let scale: u128 = power_of_two(k);
        proof {
            // den * 2^k < 2^ld * 2^k = 2^ln
            lemma_scale_strict(den as nat, pow2(ld as nat), k as nat);
            lemma_pow2_adds(ld as nat, k as nat);
            lemma_pow2_monotonic(ln as nat, 110);
            lemma_pow2_monotonic(110, 127);
            lemma_pow2_127();
        }
        assert(widened(num as nat, -(k as int)) == num);
        assert(widened(den as nat, k as int) == den * scale) by {
            if k == 0 {
                assert(den * scale == den) by (nonlinear_arith)
                    requires
                        scale == 1,
                ;
            } else {
                assert(widened(den as nat, k as int) == den as nat * pow2(k as nat));
            }
        }
        assert(bit_length(num as nat) - bit_length(den as nat) == k);
        if num >= den * scale {
            (k + 1) as i32
        } else {
            k as i32
        }
    } else {
        let k: u32 = ld - ln;
        let scale: u128 = power_of_two(k);
        proof {
            // num * 2^k < 2^ln * 2^k = 2^ld
            lemma_scale_strict(num as nat, pow2(ln as nat), k as nat);
            lemma_pow2_adds(ln as nat, k as nat);
            lemma_pow2_monotonic(ld as nat, 64);
            lemma_pow2_monotonic(64, 127);
            lemma_pow2_127();
        }
        assert(widened(num as nat, k as int) == num * scale);
        assert(widened(den as nat, -(k as int)) == den);
        assert(bit_length(num as nat) - bit_length(den as nat) == -(k as int));
        if num * scale >= den {
            1 - (k as i32)
        } else {
            -(k as i32)
        }
    }
}

/// Computes `(num / den) * 2^shift` rounded to the nearest integer, ties to
/// even.
pub fn count_units(num: u128, den: u128, shift: i32) -> (count: u128)
    requires
        0 < num < pow2(110),
        0 < den < pow2(64),
        shift > 0 ==> shift < 127 && num * pow2(shift as nat) < pow2(127),
    ensures
        count == nearest_even(widened(num as nat, shift as int), widened(den as nat, -shift)),
        count <= widened(num as nat, shift as int),
{
    let ln: u32 = bit_length_of(num);
    let ld: u32 = bit_length_of(den);
    proof {
        lemma_bit_length_bounds(num as nat);
        lemma_bit_length_bounds(den as nat);
        if ln > 110 {
            lemma_pow2_monotonic(110, (ln - 1) as nat);
        }
        if ld > 64 {
            lemma_pow2_monotonic(64, (ld - 1) as nat);
        }
        lemma_pow2_127();
        lemma2_to64();
    }
    let mut n: u128 = num;
    let mut d: u128 = den;
    if shift > 0 {
        let scale: u128 = power_of_two(shift as u32);
        proof {
            lemma_scale_weak(1, num as nat, shift as nat);
        }
        n = num * scale;
    } else if shift < 0 {
        let ghost sh: nat = (-shift) as nat;
        if ld as i64 - shift as i64 > ln as i64 + 1 {
            proof {
                // den * 2^sh >= 2^(ld-1) * 2^sh >= 2^(ln+1) > 2 * num
                lemma_scale_weak(pow2((ld - 1) as nat), den as nat, sh);
                lemma_pow2_adds((ld - 1) as nat, sh);
                lemma_pow2_monotonic((ln + 1) as nat, (ld - 1 + sh) as nat);
                lemma_pow2_unfold((ln + 1) as nat);
                let big = den as nat * pow2(sh);
                assert(2 * num < big);
                assert(num as nat / big == 0 && num as nat % big == num as nat) by {
                    vstd::arithmetic::div_mod::lemma_small_mod(num as nat, big);
                    vstd::arithmetic::div_mod::lemma_basic_div(num as int, big as int);
                }
            }
            return 0;
        }
        let scale: u128 = power_of_two((-shift) as u32);
        proof {
            // den * 2^sh < 2^ld * 2^sh <= 2^(ln+1)
            lemma_scale_strict(den as nat, pow2(ld as nat), sh);
            lemma_pow2_adds(ld as nat, sh);
            lemma_pow2_monotonic((ld + sh) as nat, 111);
            lemma_pow2_monotonic(111, 127);
        }
        d = den * scale;
    }
    assert(n == widened(num as nat, shift as int));
    assert(d == widened(den as nat, -shift));
    assert(d > 0) by {
        if shift < 0 {
            lemma_pow2_pos((-shift) as nat);
            assert(den * pow2((-shift) as nat) > 0) by (nonlinear_arith)
                requires
                    den > 0,
                    pow2((-shift) as nat) > 0,
            ;
        }
    }
    let below: u128 = n / d;
    let rest: u128 = n % d;
    proof {
        vstd::arithmetic::div_mod::lemma_fundamental_div_mod(n as int, d as int);
        assert(below * d <= n) by (nonlinear_arith)
            requires
                n == d * below + rest,
                rest >= 0,
        ;
        assert(below <= n) by (nonlinear_arith)
            requires
                below * d <= n,
                d >= 1,
                below >= 0,
        ;
        if below == n {
            assert(rest == 0 && d == 1) by (nonlinear_arith)
                requires
                    n == d * below + rest,
                    below == n,
                    n > 0,
                    d >= 1,
                    rest >= 0,
            ;
        }
    }
    if rest > d - rest || (rest == d - rest && below % 2 == 1) {
        below + 1
    } else {
        below
    }
}

/// Counted in its rounding quantum, a positive value stays below
/// `2^precision` before rounding, and is at least `2^(precision - 1)` where
/// the quantum is not the floor.
pub proof fn lemma_count_range(num: nat, den: nat, exp: int, precision: nat, floor: int)
    requires
        num > 0,
        den > 0,
        precision >= 1,
    ensures
        ({
            let quantum = rounding_quantum(num, den, exp, precision, floor);
            let n = widened(num, exp - quantum);
            let d = widened(den, quantum - exp);
            &&& d > 0
            &&& n < d * pow2(precision)
            &&& count_in(num, den, exp, quantum) <= pow2(precision)
            &&& whole_count_in(num, den, exp, quantum) < pow2(precision)
            &&& quantum > floor ==> n >= d * pow2((precision - 1) as nat)
            &&& quantum > floor ==> whole_count_in(num, den, exp, quantum) >= pow2(
                (precision - 1) as nat,
            )
        }),
{
    let top = ratio_top(num, den);
    let quantum = rounding_quantum(num, den, exp, precision, floor);
    let shift = exp - quantum;
    let n = widened(num, shift);
    let d = widened(den, -shift);
    let full = pow2(precision);
    lemma_ratio_top_bounds(num, den);
    lemma_widened(num, -top);
    lemma_widened(den, top);
    lemma_widened(num, 1 - top);
    lemma_widened(den, top - 1);
    lemma_widened(num, shift);
    lemma_widened(den, -shift);
    lemma_pow2_pos(lift(-shift));
    lemma_pow2_pos(precision);
    assert(d > 0) by (nonlinear_arith)
        requires
            d == den * pow2(lift(-shift)),
            den > 0,
            pow2(lift(-shift)) > 0,
    ;
    // num * 2^lift(-top) < den * 2^lift(top), and shift + top <= precision
    lemma_cross_less(num, den, lift(-top), lift(top), lift(shift), lift(-shift) + precision);
    lemma_pow2_adds(lift(-shift), precision);
    assert(den * pow2(lift(-shift) + precision) == d * full) by (nonlinear_arith)
        requires
            d == den * pow2(lift(-shift)),
            pow2(lift(-shift) + precision) == pow2(lift(-shift)) * full,
    ;
    assert(n < d * full);
    vstd::arithmetic::div_mod::lemma_fundamental_div_mod(n as int, d as int);
    let below = n / d;
    assert(below < full) by (nonlinear_arith)
        requires
            n == d * below + n % d,
            n % d >= 0,
            n < d * full,
            d > 0,
    ;
    if quantum > floor {
        let half = pow2((precision - 1) as nat);
        // shift + top == precision
        lemma_cross_at_least(
            num,
            den,
            lift(1 - top),
            lift(top - 1),
            lift(shift),
            lift(-shift) + (precision - 1) as nat,
        );
        lemma_pow2_adds(lift(-shift), (precision - 1) as nat);
        assert(den * pow2(lift(-shift) + (precision - 1) as nat) == d * half) by (nonlinear_arith)
            requires
                d == den * pow2(lift(-shift)),
                pow2(lift(-shift) + (precision - 1) as nat) == pow2(lift(-shift)) * half,
        ;
        assert(n >= d * half);
        assert(below >= half) by (nonlinear_arith)
            requires
                n == d * below + n % d,
                n % d < d,
                n >= d * half,
                d > 0,
        ;
    }
}

/// `nearest_even(n, d)` is an integer nearest to `n / d`: it is off by half
/// at most, no other integer `k` is nearer, and where it is off by just a
/// half it is even.
pub proof fn law_nearest_even(n: nat, d: nat, k: int)
    requires
        d > 0,
    ensures
        2 * vstd::math::abs(nearest_even(n, d) * d - n) <= d,
        vstd::math::abs(nearest_even(n, d) * d - n) <= vstd::math::abs(k * d - n),
        2 * vstd::math::abs(nearest_even(n, d) * d - n) == d ==> nearest_even(n, d) % 2 == 0,
{
    let below = n / d;
    let rest = n % d;
    let chosen = nearest_even(n, d);
    vstd::arithmetic::div_mod::lemma_fundamental_div_mod(n as int, d as int);
    vstd::arithmetic::div_mod::lemma_mod_pos_bound(n as int, d as int);
    assert(n == d * below + rest);
    assert(below * d == d * below) by (nonlinear_arith);
    assert((below + 1) * d == d * below + d) by (nonlinear_arith);
    let off = vstd::math::abs(chosen * d - n);
    assert(off == (if chosen == below {
        rest
    } else {
        (d - rest) as nat
    }));
    if k <= below {
        assert(k * d <= below * d) by (nonlinear_arith)
            requires
                k <= below,
                d > 0,
        ;
    } else {
        assert(k * d >= (below + 1) * d) by (nonlinear_arith)
            requires
                k >= below + 1,
                d > 0,
        ;
    }
}

/// The binade of a whole number is its number of digits.
pub proof fn lemma_ratio_top_whole(n: nat)
    requires
        n > 0,
    ensures
        ratio_top(n, 1) == bit_length(n),
{
    lemma_bit_length_bounds(n);
    assert(bit_length(1) == 1) by {
        assert(bit_length(0) == 0);
        assert(bit_length(1) == 1 + bit_length(0));
    }
    let k = bit_length(n) - 1;
    lemma_widened(1, k);
    assert(1 * pow2(lift(k)) == pow2(lift(k))) by (nonlinear_arith);
    lemma2_to64();
}

/// A number that the grid holds is rounded to itself. The number is
/// `m * 2^(exp + d)`, handed over as the whole number `m * 2^d` at `exp`;
/// `m` has full precision, or the unit `2^(exp + d)` is the finest one.
pub proof fn lemma_round_exact(m: nat, d: nat, exp: int, precision: nat, floor: int)
    requires
        precision >= 1,
        0 < m < pow2(precision),
        exp + d >= floor,
        m >= pow2((precision - 1) as nat) || exp + d == floor,
    ensures
        m * pow2(d) > 0,
        rounding_quantum(m * pow2(d), 1, exp, precision, floor) == exp + d,
        count_in(m * pow2(d), 1, exp, exp + d) == m,
{
    let p = pow2(d);
    let s = m * p;
    let len = bit_length(m);
    lemma_pow2_pos(d);
    lemma_bit_length_bounds(m);
    lemma_scale_weak(pow2((len - 1) as nat), m, d);
    lemma_scale_strict(m, pow2(len), d);
    lemma_pow2_adds((len - 1) as nat, d);
    lemma_pow2_adds(len, d);
    assert(s > 0) by (nonlinear_arith)
        requires
            s == m * p,
            m > 0,
            p > 0,
    ;
    lemma_bit_length_is(s, len + d);
    lemma_ratio_top_whole(s);
    if len > precision {
        lemma_pow2_monotonic(precision, (len - 1) as nat);
    }
    if m >= pow2((precision - 1) as nat) && len < precision {
        lemma_pow2_monotonic(len, (precision - 1) as nat);
    }
    assert(rounding_quantum(s, 1, exp, precision, floor) == exp + d);
    lemma_widened(1, d as int);
    lemma2_to64();
    assert(1 * pow2(lift(d as int)) == pow2(lift(d as int))) by (nonlinear_arith);
    assert(widened(s, -(d as int)) == s);
    let unit = widened(1, d as int);
    assert(unit == p);
    vstd::arithmetic::div_mod::lemma_fundamental_div_mod_converse(s as int, p as int, m as int, 0);
}

/// Two ratios of one value round to the same integer.
pub proof fn lemma_nearest_even_ratio(n1: nat, d1: nat, n2: nat, d2: nat)
    requires
        d1 > 0,
        d2 > 0,
        n1 * d2 == n2 * d1,
    ensures
        nearest_even(n1, d1) == nearest_even(n2, d2),
{
    let below = n1 / d1;
    let rest = n1 % d1;
    vstd::arithmetic::div_mod::lemma_fundamental_div_mod(n1 as int, d1 as int);
    vstd::arithmetic::div_mod::lemma_mod_pos_bound(n1 as int, d1 as int);
    let other: int = n2 - below * d2;
    assert(other * d1 == rest * d2) by (nonlinear_arith)
        requires
            other == n2 - below * d2,
            n1 == d1 * below + rest,
            n1 * d2 == n2 * d1,
    ;
    assert(other >= 0) by (nonlinear_arith)
        requires
            other * d1 == rest * d2,
            rest >= 0,
            d2 > 0,
            d1 > 0,
    ;
    assert(other < d2) by (nonlinear_arith)
        requires
            other * d1 == rest * d2,
            rest < d1,
            d2 > 0,
            d1 > 0,
    ;
    vstd::arithmetic::div_mod::lemma_fundamental_div_mod_converse(
        n2 as int,
        d2 as int,
        below as int,
        other,
    );
    assert((2 * other > d2) == (2 * rest > d1)) by (nonlinear_arith)
        requires
            other * d1 == rest * d2,
            d2 > 0,
            d1 > 0,
    ;
    assert((2 * other == d2) == (2 * rest == d1)) by (nonlinear_arith)
        requires
            other * d1 == rest * d2,
            d2 > 0,
            d1 > 0,
    ;
}

/// A power of two as a factor adds its exponent to the number of digits.
pub proof fn lemma_bit_length_scaled(n: nat, a: nat)
    requires
        n > 0,
    ensures
        bit_length(n * pow2(a)) == bit_length(n) + a,
{
    lemma_bit_length_bounds(n);
    let len = bit_length(n);
    lemma_scale_weak(pow2((len - 1) as nat), n, a);
    lemma_scale_strict(n, pow2(len), a);
    lemma_pow2_adds((len - 1) as nat, a);
    lemma_pow2_adds(len, a);
    lemma_bit_length_is(n * pow2(a), len + a);
}

/// A power of two has one digit more than its exponent says.
pub proof fn lemma_bit_length_pow2(b: nat)
    ensures
        bit_length(pow2(b)) == b + 1,
{
    lemma_pow2_strictly_increases(b, b + 1);
    lemma_bit_length_is(pow2(b), b + 1);
}

/// Powers of two in the numerator and the denominator are a matter of the
/// exponent: `(n * 2^a / 2^b) * 2^exp` is rounded as `n * 2^(exp + a - b)`
/// is.
pub proof fn lemma_round_shift(n: nat, a: nat, b: nat, exp: int, precision: nat, floor: int)
    requires
        n > 0,
    ensures
        rounding_quantum(n * pow2(a), pow2(b), exp, precision, floor) == rounding_quantum(
            n,
            1,
            exp + a - b,
            precision,
            floor,
        ),
        count_in(
            n * pow2(a),
            pow2(b),
            exp,
            rounding_quantum(n, 1, exp + a - b, precision, floor),
        ) == count_in(n, 1, exp + a - b, rounding_quantum(n, 1, exp + a - b, precision, floor)),
{
    let num = n * pow2(a);
    let den = pow2(b);
    let len = bit_length(n);
    lemma_pow2_pos(a);
    lemma_pow2_pos(b);
    lemma_bit_length_bounds(n);
    lemma_bit_length_scaled(n, a);
    lemma_bit_length_pow2(b);
    lemma_ratio_top_whole(n);
    let k = len + a - b - 1;
    assert(bit_length(num) - bit_length(den) == k);
    lemma_widened(num, -k);
    lemma_widened(den, k);
    // num * 2^lift(-k) >= 2^(len - 1) * 2^a * 2^lift(-k) == 2^b * 2^lift(k)
    lemma_scale_weak(pow2((len - 1) as nat), n, a + lift(-k));
    lemma_pow2_adds(a, lift(-k));
    lemma_pow2_adds((len - 1) as nat, a + lift(-k));
    lemma_pow2_adds(b, lift(k));
    assert(num * pow2(lift(-k)) == n * pow2(a + lift(-k))) by (nonlinear_arith)
        requires
            num == n * pow2(a),
            pow2(a + lift(-k)) == pow2(a) * pow2(lift(-k)),
    ;
    assert((len - 1) + a + lift(-k) == b + lift(k));
    assert(ratio_top(num, den) == k + 1);
    let quantum = rounding_quantum(n, 1, exp + a - b, precision, floor);
    assert(rounding_quantum(num, den, exp, precision, floor) == quantum);
    let t1 = exp - quantum;
    let t2 = exp + a - b - quantum;
    let n1 = widened(num, t1);
    let d1 = widened(den, -t1);
    let n2 = widened(n, t2);
    let d2 = widened(1, -t2);
    lemma_widened(num, t1);
    lemma_widened(den, -t1);
    lemma_widened(n, t2);
    lemma_widened(1, -t2);
    lemma_pow2_pos(lift(-t1));
    lemma_pow2_pos(lift(-t2));
    let e1 = a + lift(t1) + lift(-t2);
    let e2 = lift(t2) + b + lift(-t1);
    assert(e1 == e2);
    lemma_pow2_adds(a, lift(t1));
    lemma_pow2_adds(a + lift(t1), lift(-t2));
    lemma_pow2_adds(lift(t2), b);
    lemma_pow2_adds(lift(t2) + b, lift(-t1));
    assert(n1 * d2 == n * pow2(e1)) by (nonlinear_arith)
        requires
            n1 == (n * pow2(a)) * pow2(lift(t1)),
            d2 == 1 * pow2(lift(-t2)),
            pow2(a + lift(t1)) == pow2(a) * pow2(lift(t1)),
            pow2(e1) == pow2(a + lift(t1)) * pow2(lift(-t2)),
    ;
    assert(n2 * d1 == n * pow2(e2)) by (nonlinear_arith)
        requires
            n2 == n * pow2(lift(t2)),
            d1 == pow2(b) * pow2(lift(-t1)),
            pow2(lift(t2) + b) == pow2(lift(t2)) * pow2(b),
            pow2(e2) == pow2(lift(t2) + b) * pow2(lift(-t1)),
    ;
    assert(d1 > 0) by (nonlinear_arith)
        requires
            d1 == pow2(b) * pow2(lift(-t1)),
            pow2(b) > 0,
            pow2(lift(-t1)) > 0,
    ;
    assert(d2 > 0) by (nonlinear_arith)
        requires
            d2 == 1 * pow2(lift(-t2)),
            pow2(lift(-t2)) > 0,
    ;
    lemma_nearest_even_ratio(n1, d1, n2, d2);
}

/// A whole number of fewer digits than the precision is not rounded at all:
/// it is counted in the unit that gives it the full number of digits.
pub proof fn lemma_round_normal(n: nat, exp: int, precision: nat, floor: int)
    requires
        precision >= 1,
        0 < n < pow2(precision),
        bit_length(n) + exp - precision >= floor,
    ensures
        bit_length(n) <= precision,
        rounding_quantum(n, 1, exp, precision, floor) == bit_length(n) + exp - precision,
        count_in(n, 1, exp, bit_length(n) + exp - precision) == n * pow2(
            (precision - bit_length(n)) as nat,
        ),
        pow2((precision - 1) as nat) <= n * pow2((precision - bit_length(n)) as nat) < pow2(
            precision,
        ),
{
    let len = bit_length(n);
    lemma_bit_length_bounds(n);
    if len > precision {
        lemma_pow2_monotonic(precision, (len - 1) as nat);
    }
    lemma_ratio_top_whole(n);
    let shift = (precision - len) as nat;
    let quantum = len + exp - precision;
    assert(rounding_quantum(n, 1, exp, precision, floor) == quantum);
    lemma_widened(n, shift as int);
    assert(widened(1, -(shift as int)) == 1);
    let scaled = n * pow2(shift);
    assert(scaled / 1 == scaled && scaled % 1 == 0);
    assert(lift(shift as int) == shift);
    lemma_scale_weak(pow2((len - 1) as nat), n, shift);
    lemma_scale_strict(n, pow2(len), shift);
    lemma_pow2_adds((len - 1) as nat, shift);
    lemma_pow2_adds(len, shift);
}

/// Adding to, or taking from, a number of full precision something that is
/// smaller than a quarter of its unit in the last place leaves it as it is
/// after rounding. The number is `m * 2^(exp + d)`; the small one is
/// `r * 2^exp`. The conclusion equates the two packed magnitudes.
pub proof fn lemma_round_dominant(
    m: nat,
    r: nat,
    d: nat,
    subtract: bool,
    exp: int,
    precision: nat,
    floor: int,
)
    requires
        precision >= 1,
        pow2((precision - 1) as nat) <= m < pow2(precision),
        r < pow2(precision),
        d >= precision + 2,
        exp >= floor,
    ensures
        ({
            let s: nat = if subtract {
                (m * pow2(d) - r) as nat
            } else {
                m * pow2(d) + r
            };
            let quantum = rounding_quantum(s, 1, exp, precision, floor);
            let count = count_in(s, 1, exp, quantum);
            &&& m * pow2(d) > r
            &&& quantum >= floor
            &&& (quantum - floor) * pow2((precision - 1) as nat) + count == (exp + d - floor)
                * pow2((precision - 1) as nat) + m
        }),
{
    let h = pow2((precision - 1) as nat);
    let f = pow2(precision);
    let p = pow2(d);
    let ph = pow2((d - 1) as nat);
    lemma_pow2_unfold(precision);
    lemma_pow2_unfold(d);
    lemma_pow2_pos((precision - 1) as nat);
    lemma_pow2_monotonic(precision + 2, d);
    lemma_pow2_unfold(precision + 2);
    lemma_pow2_unfold(precision + 1);
    assert(f == 2 * h);
    assert(p == 2 * ph);
    assert(p >= 4 * f);
    lemma_pow2_adds(precision, d);
    lemma_pow2_adds((precision - 1) as nat, d);
    lemma_pow2_adds((precision - 1) as nat, (d - 1) as nat);
    assert(m * p >= h * p) by (nonlinear_arith)
        requires
            m >= h,
    ;
    assert(h * p >= p) by (nonlinear_arith)
        requires
            h >= 1,
    ;
    assert(m * p > r);
    let s: nat = if subtract {
        (m * p - r) as nat
    } else {
        m * p + r
    };
    let low_case = subtract && r > 0 && m == h;
    if !low_case {
        let below: nat = if subtract && r > 0 {
            (m - 1) as nat
        } else {
            m
        };
        let rest: nat = if subtract && r > 0 {
            (p - r) as nat
        } else {
            r
        };
        assert(s == below * p + rest) by (nonlinear_arith)
            requires
                s == (if subtract {
                    m * p - r
                } else {
                    (m * p + r) as int
                }),
                below == (if subtract && r > 0 {
                    m - 1
                } else {
                    m as int
                }),
                rest == (if subtract && r > 0 {
                    p - r
                } else {
                    r as int
                }),
                subtract ==> m >= 1,
        ;
        assert(below >= h);
        assert(below * p >= h * p) by (nonlinear_arith)
            requires
                below >= h,
        ;
        assert(below * p + p <= f * p) by (nonlinear_arith)
            requires
                below + 1 <= f,
        ;
        assert(h * p <= s < f * p);
        lemma_bit_length_is(s, precision + d);
        lemma_ratio_top_whole(s);
        let quantum = exp + d;
        assert(rounding_quantum(s, 1, exp, precision, floor) == quantum);
        lemma_widened(1, d as int);
        assert(1 * p == p) by (nonlinear_arith);
        assert(widened(s, -(d as int)) == s);
        assert(widened(1, d as int) == p);
        vstd::arithmetic::div_mod::lemma_fundamental_div_mod_converse(
            s as int,
            p as int,
            below as int,
            rest as int,
        );
        assert(count_in(s, 1, exp, quantum) == nearest_even(s, p));
        assert(nearest_even(s, p) == m);
    } else {
        let below: nat = (f - 1) as nat;
        let rest: nat = (ph - r) as nat;
        assert(s == below * ph + rest) by (nonlinear_arith)
            requires
                s == m * p - r,
                m == h,
                p == 2 * ph,
                f == 2 * h,
                below == f - 1,
                rest == ph - r,
        ;
        assert(h * ph >= ph) by (nonlinear_arith)
            requires
                h >= 1,
        ;
        assert(h * p == 2 * (h * ph)) by (nonlinear_arith)
            requires
                p == 2 * ph,
        ;
        assert(h * ph <= s < h * p);
        lemma_bit_length_is(s, (precision + d - 1) as nat);
        lemma_ratio_top_whole(s);
        let quantum = exp + d - 1;
        assert(rounding_quantum(s, 1, exp, precision, floor) == quantum);
        lemma_widened(1, d - 1);
        assert(1 * ph == ph) by (nonlinear_arith);
        assert(widened(s, 1 - d) == s);
        assert(widened(1, d - 1) == ph);
        vstd::arithmetic::div_mod::lemma_fundamental_div_mod_converse(
            s as int,
            ph as int,
            below as int,
            rest as int,
        );
        assert(count_in(s, 1, exp, quantum) == nearest_even(s, ph));
        assert(nearest_even(s, ph) == f);
        assert((quantum - floor) * h + f == (exp + d - floor) * h + m) by (nonlinear_arith)
            requires
                quantum == exp + d - 1,
                f == 2 * h,
                m == h,
        ;
    }
}

/// Rounds the positive value `(num / den) * 2^exp` to `precision` significant
/// digits, with no unit finer than `2^floor`. Returns the count of units and
/// the exponent of the unit.
pub fn round_ratio(num: u128, den: u128, exp: i32, precision: u32, floor: i32) -> (r: (u64, i32))
    requires
        0 < num < pow2(110),
        0 < den < pow2(64),
        1 <= precision <= 53,
        -0x10000 <= exp <= 0x10000,
        -0x10000 <= floor <= 0x10000,
    ensures
        r.1 == rounding_quantum(num as nat, den as nat, exp as int, precision as nat, floor as int),
        r.0 == count_in(num as nat, den as nat, exp as int, r.1 as int),
        r.0 <= pow2(precision as nat),
{
    let top: i32 = ratio_top_of(num, den);
    let fine: i32 = top + exp - precision as i32;
    let quantum: i32 = if fine > floor {
        fine
    } else {
        floor
    };
    let shift: i32 = exp - quantum;
    proof {
        lemma_count_range(num as nat, den as nat, exp as int, precision as nat, floor as int);
        lemma_pow2_monotonic(precision as nat, 53);
        lemma2_to64();
        lemma_pow2_adds(32, 21);
        if shift > 0 {
            // num * 2^shift < den * 2^precision < 2^64 * 2^53
            lemma_scale_strict(den as nat, pow2(64), precision as nat);
            lemma_pow2_adds(64, precision as nat);
            lemma_pow2_monotonic((64 + precision) as nat, 127);
            assert(den * pow2(lift(0 - shift)) == den) by (nonlinear_arith)
                requires
                    pow2(lift(0 - shift)) == 1,
            ;
        }
    }
    let count: u128 = count_units(num, den, shift);
    (count as u64, quantum)
}

} // verus!
