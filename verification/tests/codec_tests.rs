use music_clip::codec::{decode, encode, float_sample_to_pcm, pcm_sample_to_float};
use music_clip::single::Single;

fn s(x: f32) -> Single {
    Single::from_bits(x.to_bits())
}

fn f(x: Single) -> f32 {
    f32::from_bits(x.to_bits())
}

fn formula_decode(byte0: u8, byte1: u8) -> f32 {
    let high = byte1 as i8;
    high as f32 / 128.0 + byte0 as f32 / (65536.0 / 2.0)
}

fn formula_encode(sample: f32) -> (u8, u8) {
    let level = (sample.clamp(-1.0, 1.0) * i16::MAX as f32) as i16;
    let [a, b] = level.to_le_bytes();
    (a, b)
}

fn shuffle(state: &mut u64) -> u64 {
    *state ^= *state << 13;
    *state ^= *state >> 7;
    *state ^= *state << 17;
    *state
}

#[test]
fn decode_of_every_byte_pair_matches_the_formula() {
    for byte1 in 0..=255u8 {
        for byte0 in 0..=255u8 {
            let got = pcm_sample_to_float(byte0, byte1);
            let want = formula_decode(byte0, byte1);
            assert_eq!(got.to_bits(), want.to_bits(), "{byte0} {byte1}");
        }
    }
}

#[test]
fn decode_is_the_signed_word_over_32768() {
    for byte1 in 0..=255u8 {
        for byte0 in 0..=255u8 {
            let word = i16::from_le_bytes([byte0, byte1]);
            assert_eq!(f(pcm_sample_to_float(byte0, byte1)), word as f32 / 32768.0);
        }
    }
}

#[test]
fn decode_reads_the_high_byte_as_signed() {
    assert_eq!(f(pcm_sample_to_float(0, 0x80)), -1.0);
    assert_eq!(f(pcm_sample_to_float(0, 0x7f)), 0.9921875);
    assert_eq!(f(pcm_sample_to_float(0, 0xff)), -0.0078125);
    assert_eq!(f(pcm_sample_to_float(0xff, 0xff)), -0.0078125 + 255.0 / 32768.0);
    assert_eq!(f(pcm_sample_to_float(0, 0x40)), 0.5);
    assert_eq!(pcm_sample_to_float(0, 0).to_bits(), 0);
}

#[test]
fn encode_gives_exact_levels() {
    assert_eq!(float_sample_to_pcm(s(0.0)), (0x00, 0x00));
    assert_eq!(float_sample_to_pcm(s(-0.0)), (0x00, 0x00));
    assert_eq!(float_sample_to_pcm(s(1.0)), (0xff, 0x7f));
    assert_eq!(float_sample_to_pcm(s(-1.0)), (0x01, 0x80));
    assert_eq!(float_sample_to_pcm(s(0.5)), (0xff, 0x3f));
    assert_eq!(float_sample_to_pcm(s(-0.5)), (0x01, 0xc0));
    assert_eq!(float_sample_to_pcm(s(0.25)), (0xff, 0x1f));
}

#[test]
fn encode_limits_what_is_out_of_range() {
    assert_eq!(float_sample_to_pcm(s(1.5)), (0xff, 0x7f));
    assert_eq!(float_sample_to_pcm(s(-7.0)), (0x01, 0x80));
    assert_eq!(float_sample_to_pcm(s(f32::INFINITY)), (0xff, 0x7f));
    assert_eq!(float_sample_to_pcm(s(f32::NEG_INFINITY)), (0x01, 0x80));
    assert_eq!(float_sample_to_pcm(s(f32::NAN)), (0x00, 0x00));
}

#[test]
fn encode_matches_the_formula_on_random_samples() {
    let mut state: u64 = 0x6a09_e667_f3bc_c908;
    for _ in 0..200000 {
        let x = shuffle(&mut state);
        let a = f32::from_bits(x as u32);
        assert_eq!(float_sample_to_pcm(s(a)), formula_encode(a), "{a:e}");
        // samples within the range, where the level depends on every digit
        let b = f32::from_bits(((x >> 32) as u32 & 0x807f_ffff) | ((120 + (x as u32 & 7)) << 23));
        assert_eq!(float_sample_to_pcm(s(b)), formula_encode(b), "{b:e}");
    }
}

#[test]
fn encode_rounds_the_product_before_it_drops_the_fraction() {
    // 16384 - 2^-16 is no single-precision number: the product rounds up to 16384
    let x = f32::from_bits(0x3f00_0100);
    assert_eq!(formula_encode(x), (0x00, 0x40));
    assert_eq!(float_sample_to_pcm(s(x)), (0x00, 0x40));
}

#[test]
fn round_trip_shows_the_documented_asymmetry() {
    let played = vec![(s(0.5), s(-0.5)), (s(1.0), s(-1.0))];
    let bytes = encode(&played);
    assert_eq!(bytes, vec![0xff, 0x3f, 0x01, 0xc0, 0xff, 0x7f, 0x01, 0x80]);
    let back = decode(&bytes);
    assert_eq!(back.len(), 2);
    assert_eq!(f(back[0].0), 16383.0 / 32768.0);
    assert_eq!(f(back[0].1), -16383.0 / 32768.0);
    assert_eq!(f(back[1].0), 32767.0 / 32768.0);
    assert_eq!(f(back[1].1), -32767.0 / 32768.0);
    assert_ne!(back[0].0, played[0].0);
    assert_ne!(back[0].1, played[0].1);
    assert_ne!(back[1].0, played[1].0);
    assert_ne!(back[1].1, played[1].1);
    assert_eq!(0.5 - f(back[0].0), 1.0 / 32768.0);
    assert_eq!(1.0 - f(back[1].0), 1.0 / 32768.0);
}

#[test]
fn decode_leaves_out_an_unfinished_group() {
    assert_eq!(decode(&vec![]).len(), 0);
    assert_eq!(decode(&vec![1, 2, 3]).len(), 0);
    let samples = decode(&vec![0, 0x40, 0, 0xc0, 9, 9, 9]);
    assert_eq!(samples.len(), 1);
    assert_eq!(f(samples[0].0), 0.5);
    assert_eq!(f(samples[0].1), -0.5);
}

#[test]
fn encode_writes_left_then_right_low_byte_first() {
    let bytes = encode(&vec![(s(0.25), s(-1.0)), (s(0.0), s(1.0))]);
    assert_eq!(bytes, vec![0xff, 0x1f, 0x01, 0x80, 0x00, 0x00, 0xff, 0x7f]);
    assert_eq!(encode(&vec![]), Vec::<u8>::new());
}

#[test]
fn round_trip_gives_the_level_over_32768() {
    let mut state: u64 = 0x1f83_d9ab_fb41_bd6b;
    for _ in 0..200000 {
        let x = shuffle(&mut state);
        // a sample from minus one to one: a random sign and fraction under an exponent up to -1
        let exponent = 127 - 1 - (x >> 59) as u32;
        let a = f32::from_bits((x as u32 & 0x807f_ffff) | (exponent << 23));
        let bytes = float_sample_to_pcm(s(a));
        let back = f(pcm_sample_to_float(bytes.0, bytes.1));
        let level = (a * 32767.0) as i16;
        assert_eq!(back, level as f32 / 32768.0, "{a:e}");
        assert!((back as f64 - a as f64).abs() < 2.0 / 32768.0, "{a:e}");
        assert!(back == 0.0 || (back < 0.0) == (a < 0.0), "{a:e}");
    }
}

#[test]
fn round_trip_stays_within_two_steps_at_the_ends() {
    for a in [1.0f32, -1.0, 0.99999994, -0.99999994, 0.9999, 0.5, 3.0517578e-5, 1e-45, 0.0, -0.0] {
        let bytes = float_sample_to_pcm(s(a));
        let back = f(pcm_sample_to_float(bytes.0, bytes.1));
        assert!((back as f64 - a as f64).abs() < 2.0 / 32768.0, "{a:e}");
    }
    let bytes = float_sample_to_pcm(s(1.0));
    assert_eq!(f(pcm_sample_to_float(bytes.0, bytes.1)), 32767.0 / 32768.0);
}
