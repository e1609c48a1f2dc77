use music_clip::single::Single;

fn s(x: f32) -> Single {
    Single::from_bits(x.to_bits())
}

fn step(state: &mut u64) -> u64 {
    *state ^= *state << 13;
    *state ^= *state >> 7;
    *state ^= *state << 17;
    *state
}

fn agree(got: Single, want: f32) -> bool {
    if want.is_nan() {
        f32::from_bits(got.to_bits()).is_nan()
    } else {
        got.to_bits() == want.to_bits()
    }
}

fn chosen() -> Vec<f32> {
    vec![
        0.0,
        -0.0,
        1.0,
        -1.0,
        0.5,
        -0.5,
        0.6,
        0.4,
        1.5,
        3.0,
        0.1,
        32767.0,
        16777216.0,
        16777217.0,
        1e30,
        -1e30,
        1e-30,
        1e-45,
        -1e-45,
        f32::MAX,
        f32::MIN,
        f32::MIN_POSITIVE,
        1.1754942e-38,
        f32::INFINITY,
        f32::NEG_INFINITY,
        f32::NAN,
        1.0000001,
        0.99999994,
        8388608.0,
        8388607.5,
    ]
}

fn near(x: u64, base: u32) -> f32 {
    // a random sign and fraction under an exponent field close to `base`
    let bits = (x as u32 & 0x807f_ffff) | ((base + ((x >> 40) as u32 & 7)) << 23);
    f32::from_bits(bits)
}

#[test]
fn single_arithmetic_matches_hardware_on_chosen_values() {
    for a in chosen() {
        for b in chosen() {
            assert!(agree(s(a).plus(s(b)), a + b), "{a:e} + {b:e}");
            assert!(agree(s(a).minus(s(b)), a - b), "{a:e} - {b:e}");
            assert!(agree(s(a).times(s(b)), a * b), "{a:e} * {b:e}");
            assert!(agree(s(a).divided_by(s(b)), a / b), "{a:e} / {b:e}");
        }
    }
}

#[test]
fn single_sum_matches_hardware_on_random_encodings() {
    let mut state: u64 = 0x9e37_79b9_7f4a_7c15;
    for _ in 0..200000 {
        let x = step(&mut state);
        let a = f32::from_bits(x as u32);
        let b = f32::from_bits((x >> 32) as u32);
        assert!(agree(s(a).plus(s(b)), a + b), "{a:e} + {b:e}");
        assert!(agree(s(a).minus(s(b)), a - b), "{a:e} - {b:e}");
    }
}

#[test]
fn single_sum_matches_hardware_on_close_exponents() {
    let mut state: u64 = 0x2545_f491_4f6c_dd1d;
    for base in [0u32, 1, 20, 100, 120, 127, 200, 240, 246] {
        for _ in 0..40000 {
            let a = near(step(&mut state), base);
            let b = near(step(&mut state), base);
            assert!(agree(s(a).plus(s(b)), a + b), "{a:e} + {b:e}");
            assert!(agree(s(a).minus(s(b)), a - b), "{a:e} - {b:e}");
        }
    }
}

#[test]
fn single_sum_matches_hardware_where_one_side_dominates() {
    let mut state: u64 = 0x1357_9bdf_0246_8ace;
    for gap in 20u32..40 {
        for _ in 0..5000 {
            let x = step(&mut state);
            let y = step(&mut state);
            let a = f32::from_bits((x as u32 & 0x807f_ffff) | (150 << 23));
            let b = f32::from_bits((y as u32 & 0x807f_ffff) | ((150 - gap) << 23));
            assert!(agree(s(a).plus(s(b)), a + b), "{a:e} + {b:e}");
            assert!(agree(s(b).plus(s(a)), b + a), "{b:e} + {a:e}");
        }
        // a power of two loses half of its unit on the way down
        let a = f32::from_bits(150 << 23);
        let b = f32::from_bits(0x8000_0000 | ((150 - gap) << 23));
        assert!(agree(s(a).plus(s(b)), a + b), "{a:e} + {b:e}");
    }
}

#[test]
fn single_product_matches_hardware_on_random_encodings() {
    let mut state: u64 = 0xdead_beef_cafe_f00d;
    for _ in 0..200000 {
        let x = step(&mut state);
        let a = f32::from_bits(x as u32);
        let b = f32::from_bits((x >> 32) as u32);
        assert!(agree(s(a).times(s(b)), a * b), "{a:e} * {b:e}");
    }
    for _ in 0..200000 {
        let a = near(step(&mut state), 60);
        let b = near(step(&mut state), 55);
        assert!(agree(s(a).times(s(b)), a * b), "{a:e} * {b:e}");
    }
}

#[test]
fn single_quotient_matches_hardware_on_random_encodings() {
    let mut state: u64 = 0x0123_4567_89ab_cdef;
    for _ in 0..200000 {
        let x = step(&mut state);
        let a = f32::from_bits(x as u32);
        let b = f32::from_bits((x >> 32) as u32);
        assert!(agree(s(a).divided_by(s(b)), a / b), "{a:e} / {b:e}");
    }
    for _ in 0..200000 {
        let a = near(step(&mut state), 60);
        let b = near(step(&mut state), 186);
        assert!(agree(s(a).divided_by(s(b)), a / b), "{a:e} / {b:e}");
        assert!(agree(s(b).divided_by(s(a)), b / a), "{b:e} / {a:e}");
    }
}

#[test]
fn single_conversions_match_the_casts() {
    let mut state: u64 = 0x5555_aaaa_3333_cccc;
    for n in [0usize, 1, 2, 16777215, 16777216, 16777217, 16777218, 16777219, usize::MAX] {
        assert_eq!(Single::from_usize(n).to_bits(), (n as f32).to_bits(), "{n}");
    }
    for n in [i16::MIN, -1, 0, 1, 127, -128, i16::MAX] {
        assert_eq!(Single::from_i16(n).to_bits(), (n as f32).to_bits(), "{n}");
    }
    for _ in 0..100000 {
        let x = step(&mut state);
        let n = (x >> (x & 63)) as usize;
        assert_eq!(Single::from_usize(n).to_bits(), (n as f32).to_bits(), "{n}");
        let a = f32::from_bits((x >> 32) as u32);
        assert_eq!(s(a).to_usize(), a as usize, "{a:e}");
        assert_eq!(s(a).to_i16(), a as i16, "{a:e}");
        let b = near(x, 124);
        assert_eq!(s(b).to_usize(), b as usize, "{b:e}");
        assert_eq!(s(b).to_i16(), b as i16, "{b:e}");
        let c = near(x, 138);
        assert_eq!(s(c).to_i16(), c as i16, "{c:e}");
        let e = near(x, 186);
        assert_eq!(s(e).to_usize(), e as usize, "{e:e}");
    }
}

#[test]
fn single_clamp_matches_hardware() {
    let mut state: u64 = 0x7777_1111_eeee_2222;
    for a in chosen() {
        assert!(agree(s(a).clamp_unit(), a.clamp(-1.0, 1.0)), "{a:e}");
    }
    for _ in 0..100000 {
        let x = step(&mut state);
        let a = f32::from_bits(x as u32);
        assert!(agree(s(a).clamp_unit(), a.clamp(-1.0, 1.0)), "{a:e}");
        let b = near(x, 124);
        assert!(agree(s(b).clamp_unit(), b.clamp(-1.0, 1.0)), "{b:e}");
    }
}

#[test]
fn single_negation_flips_the_sign_bit_only() {
    for a in chosen() {
        assert_eq!(s(a).negated().to_bits(), (-a).to_bits());
    }
}

#[test]
fn single_fraction_matches_the_remainder_by_one() {
    let mut state: u64 = 0x4242_4242_1717_1717;
    for a in chosen() {
        assert!(agree(s(a).fraction_of(), a % 1.0), "{a:e}");
    }
    for _ in 0..100000 {
        let x = step(&mut state);
        let a = f32::from_bits(x as u32);
        assert!(agree(s(a).fraction_of(), a % 1.0), "{a:e}");
        let c = near(x, 124);
        assert!(agree(s(c).fraction_of(), c % 1.0), "{c:e}");
        let e = near(x, 140);
        assert!(agree(s(e).fraction_of(), e % 1.0), "{e:e}");
    }
}

#[test]
fn single_rounding_up_matches_ceil() {
    let mut state: u64 = 0x9999_8888_7777_6666;
    for a in chosen() {
        assert_eq!(s(a).to_usize_up(), a.ceil() as usize, "{a:e}");
    }
    for _ in 0..100000 {
        let x = step(&mut state);
        let a = f32::from_bits(x as u32);
        assert_eq!(s(a).to_usize_up(), a.ceil() as usize, "{a:e}");
        assert_eq!(s(a).to_usize(), a.floor() as usize, "{a:e}");
        let c = near(x, 124);
        assert_eq!(s(c).to_usize_up(), c.ceil() as usize, "{c:e}");
        assert_eq!(s(c).to_usize(), c.floor() as usize, "{c:e}");
        let e = near(x, 186);
        assert_eq!(s(e).to_usize_up(), e.ceil() as usize, "{e:e}");
    }
}

#[test]
fn single_blend_matches_the_formula() {
    let mut state: u64 = 0x1111_2222_3333_4444;
    for _ in 0..100000 {
        let a = near(step(&mut state), 120);
        let b = near(step(&mut state), 120);
        let f = near(step(&mut state), 119);
        assert!(agree(s(a).blended(s(b), s(f)), a + (b - a) * f), "{a:e} {b:e} {f:e}");
    }
}
