use music_clip::double::Double;

fn d(x: f64) -> Double {
    Double::from_bits(x.to_bits())
}

fn next(state: &mut u64) -> u64 {
    *state ^= *state << 13;
    *state ^= *state >> 7;
    *state ^= *state << 17;
    *state
}

fn same(got: Double, want: f64) -> bool {
    if want.is_nan() {
        f64::from_bits(got.to_bits()).is_nan()
    } else {
        got.to_bits() == want.to_bits()
    }
}

#[test]
fn double_from_u32_matches_the_cast() {
    let mut state: u64 = 0x2545_f491_4f6c_dd1d;
    for n in [0u32, 1, 2, 3, 22050, 44100, u32::MAX, u32::MAX - 1, 1 << 31] {
        assert_eq!(Double::from_u32(n).to_bits(), (n as f64).to_bits());
    }
    for _ in 0..20000 {
        let n = next(&mut state) as u32;
        assert_eq!(Double::from_u32(n).to_bits(), (n as f64).to_bits());
    }
}

#[test]
fn double_product_matches_hardware_on_chosen_values() {
    let values = [
        0.0f64,
        -0.0,
        1.0,
        -1.0,
        0.5,
        1.5,
        3.0,
        0.1,
        22050.0,
        1e300,
        -1e300,
        1e-300,
        5e-324,
        f64::MAX,
        f64::MIN_POSITIVE,
        f64::INFINITY,
        f64::NEG_INFINITY,
        f64::NAN,
        2.2250738585072009e-308,
        1.0000000000000002,
        0.9999999999999999,
    ];
    for a in values {
        for b in values {
            assert!(same(d(a).times(d(b)), a * b), "{a} * {b}");
        }
    }
}

#[test]
fn double_product_matches_hardware_on_random_encodings() {
    let mut state: u64 = 0x9e37_79b9_7f4a_7c15;
    for _ in 0..200000 {
        let a = f64::from_bits(next(&mut state));
        let b = f64::from_bits(next(&mut state));
        assert!(same(d(a).times(d(b)), a * b), "{a:e} * {b:e}");
    }
}

#[test]
fn double_product_matches_hardware_near_the_subnormal_range() {
    let mut state: u64 = 0x1234_5678_9abc_def1;
    for _ in 0..200000 {
        let x = next(&mut state);
        let y = next(&mut state);
        // exponents chosen so that the product lands around the smallest normal number
        let a = f64::from_bits((x & 0x800f_ffff_ffff_ffff) | ((500 + (x >> 60)) << 52));
        let b = f64::from_bits((y & 0x800f_ffff_ffff_ffff) | ((495 + (y >> 60)) << 52));
        assert!(same(d(a).times(d(b)), a * b), "{a:e} * {b:e}");
    }
}

#[test]
fn double_to_usize_matches_the_cast() {
    let values = [
        0.0f64,
        -0.0,
        0.5,
        0.9999999999999999,
        1.0,
        1.5,
        -1.5,
        44100.75,
        1e19,
        1.8446744073709552e19,
        1.8446744073709550e19,
        1e30,
        f64::INFINITY,
        f64::NEG_INFINITY,
        f64::NAN,
        5e-324,
    ];
    for a in values {
        assert_eq!(d(a).to_usize(), a as usize, "{a}");
        assert_eq!(d(a).to_u32(), a as u32, "{a}");
    }
    let mut state: u64 = 0x0dd_ba11;
    for _ in 0..200000 {
        let a = f64::from_bits(next(&mut state));
        assert_eq!(d(a).to_usize(), a as usize, "{a:e}");
        assert_eq!(d(a).to_u32(), a as u32, "{a:e}");
    }
    for _ in 0..200000 {
        let x = next(&mut state);
        let a = f64::from_bits((x & 0x800f_ffff_ffff_ffff) | ((1000 + (x >> 57)) << 52));
        assert_eq!(d(a).to_usize(), a as usize, "{a:e}");
        assert_eq!(d(a).to_u32(), a as u32, "{a:e}");
    }
}

#[test]
fn double_quotient_matches_hardware() {
    let values = [
        0.0f64,
        -0.0,
        1.0,
        -1.0,
        3.0,
        44100.0,
        22050.0,
        1e300,
        1e-300,
        5e-324,
        f64::MAX,
        f64::MIN_POSITIVE,
        f64::INFINITY,
        f64::NEG_INFINITY,
        f64::NAN,
    ];
    for a in values {
        for b in values {
            assert!(same(d(a).divided_by(d(b)), a / b), "{a} / {b}");
        }
    }
    let mut state: u64 = 0xfeed_face_dead_beef;
    for _ in 0..200000 {
        let a = f64::from_bits(next(&mut state));
        let b = f64::from_bits(next(&mut state));
        assert!(same(d(a).divided_by(d(b)), a / b), "{a:e} / {b:e}");
    }
    for _ in 0..200000 {
        let x = next(&mut state);
        let y = next(&mut state);
        let a = f64::from_bits((x & 0x800f_ffff_ffff_ffff) | ((500 + (x >> 60)) << 52));
        let b = f64::from_bits((y & 0x800f_ffff_ffff_ffff) | ((1520 + (y >> 60)) << 52));
        assert!(same(d(a).divided_by(d(b)), a / b), "{a:e} / {b:e}");
    }
}

#[test]
fn double_from_usize_matches_the_cast() {
    let mut state: u64 = 0x0bad_cafe_0bad_cafe;
    for n in [0usize, 1, 44100, (1 << 53) - 1, 1 << 53, (1 << 53) + 1, (1 << 53) + 2, (1 << 53) + 3, usize::MAX] {
        assert_eq!(Double::from_usize(n).to_bits(), (n as f64).to_bits(), "{n}");
    }
    for _ in 0..100000 {
        let x = next(&mut state);
        let n = (x >> (x & 63)) as usize;
        assert_eq!(Double::from_usize(n).to_bits(), (n as f64).to_bits(), "{n}");
    }
}
