use music_clip::clip::MusicClip;
use music_clip::codec::encode;
use music_clip::double::Double;
use music_clip::provided::{HelloWorld, ProvidedMusicClip};
use music_clip::single::Single;
use music_clip::stream::{make_default_audio_stream, AudioStream, LoopMode, SampleFormat};

fn s(x: f32) -> Single {
    Single::from_bits(x.to_bits())
}

fn b(x: f64) -> Double {
    Double::from_bits(x.to_bits())
}

fn seconds(x: Double) -> f64 {
    f64::from_bits(x.to_bits())
}

fn frames(values: &[(f32, f32)]) -> Vec<(Single, Single)> {
    values.iter().map(|v| (s(v.0), s(v.1))).collect()
}

fn ramp(count: usize) -> Vec<(Single, Single)> {
    (0..count).map(|i| (s(i as f32 / 64.0), s(-(i as f32) / 64.0))).collect()
}

fn clip_of(samples: Vec<(Single, Single)>, samples_per_beat: u32, first_beat_sample: u32) -> MusicClip {
    MusicClip {
        audio_data: samples,
        audio_stream: make_default_audio_stream(),
        audio_stream_dirty: false,
        samples_per_beat,
        first_beat_sample,
    }
}

fn turn(state: &mut u64) -> u64 {
    *state ^= *state << 13;
    *state ^= *state >> 7;
    *state ^= *state << 17;
    *state
}

fn is_default(stream: &AudioStream) -> bool {
    stream.data.is_empty()
        && stream.format == SampleFormat::SixteenBits
        && stream.mix_rate == 44100
        && stream.stereo
        && stream.loop_mode == LoopMode::Disabled
        && stream.loop_begin == 0
        && stream.loop_end == 0
}

#[test]
fn new_clip_is_empty_and_clean() {
    let clip = MusicClip::new();
    assert_eq!(clip.num_samples(), 0);
    assert!(!clip.audio_stream_dirty);
    assert_eq!(clip.samples_per_beat, 22050);
    assert_eq!(clip.first_beat_sample, 0);
    assert!(is_default(&clip.audio_stream));
    assert!(!clip.is_looping());
}

#[test]
fn beat_to_sample_scales_and_offsets() {
    let clip = clip_of(vec![], 22050, 100);
    assert_eq!(clip.beat_to_sample(b(0.0)), 100);
    assert_eq!(clip.beat_to_sample(b(1.0)), 22150);
    assert_eq!(clip.beat_to_sample(b(0.5)), 11125);
    assert_eq!(clip.beat_to_sample(b(2.25)), 49612 + 100);
    assert_eq!(clip.beat_to_sample(b(1.0 / 3.0)), 7350 + 100);
    assert_eq!(clip.beat_to_sample(b(0.00001)), 100);
}

#[test]
fn beat_to_sample_cuts_the_fraction_towards_zero() {
    let clip = clip_of(vec![], 3, 7);
    assert_eq!(clip.beat_to_sample(b(0.99)), 9);
    assert_eq!(clip.beat_to_sample(b(-0.0)), 7);
    assert_eq!(clip.beat_to_sample(b(-0.3)), 7);
    assert_eq!(clip.beat_to_sample(b(-0.5)), 6);
    assert_eq!(clip.beat_to_sample(b(-0.99)), 5);
    assert_eq!(clip.beat_to_sample(b(-2.0)), 1);
    assert_eq!(clip.beat_to_sample(b(-7.0 / 3.0)), 0);
    assert_eq!(clip.beat_to_sample(b(f64::NAN)), 7);
}

#[test]
fn beat_to_sample_counts_back_from_the_first_beat() {
    let clip = clip_of(vec![], 4, 10);
    assert_eq!(clip.beat_to_sample(b(-0.5)), 8);
    assert_eq!(clip.beat_to_sample(b(-2.5)), 0);
    assert_eq!(clip.checked_beat_to_sample(b(-0.5)), Some(8));
    assert_eq!(clip.checked_beat_to_sample(b(-2.5)), Some(0));
    assert_eq!(clip.checked_beat_to_sample(b(-2.75)), None);
}

#[test]
fn checked_beat_to_sample_refuses_what_lies_before_the_buffer() {
    let clip = clip_of(vec![], 3, 7);
    assert_eq!(clip.checked_beat_to_sample(b(-4.0)), None);
    assert_eq!(clip.checked_beat_to_sample(b(-1e300)), None);
    assert_eq!(clip.checked_beat_to_sample(b(f64::NEG_INFINITY)), None);
    assert_eq!(clip.checked_beat_to_sample(b(-2.5)), Some(0));
    assert_eq!(clip.checked_beat_to_sample(b(f64::NAN)), Some(7));
    let at_start = clip_of(vec![], 3, 0);
    assert_eq!(at_start.checked_beat_to_sample(b(-0.3)), Some(0));
    assert_eq!(at_start.checked_beat_to_sample(b(-0.5)), None);
}

#[test]
fn beat_to_sample_matches_the_signed_formula_on_negative_beats() {
    let mut state: u64 = 0x510e_527f_ade6_82d1;
    for _ in 0..100000 {
        let x = turn(&mut state);
        let y = turn(&mut state);
        let samples_per_beat = (x >> 44) as u32;
        let first_beat_sample = (x & 0xff_ffff) as u32;
        let beat = -((y >> 11) as f64 / (1u64 << 49) as f64);
        let clip = clip_of(vec![], samples_per_beat, first_beat_sample);
        let want = (samples_per_beat as f64 * beat) as i64 + first_beat_sample as i64;
        let got = clip.checked_beat_to_sample(b(beat));
        if want < 0 {
            assert_eq!(got, None, "{samples_per_beat} {beat}");
        } else {
            assert_eq!(got, Some(want as usize), "{samples_per_beat} {beat}");
        }
    }
}

#[test]
fn beat_to_sample_matches_the_float_formula() {
    let mut state: u64 = 0x3c6e_f372_fe94_f82b;
    for _ in 0..100000 {
        let x = turn(&mut state);
        let y = turn(&mut state);
        let samples_per_beat = (x >> 40) as u32;
        let first_beat_sample = (x & 0xffff) as u32;
        let beat = (y >> 11) as f64 / (1u64 << 45) as f64;
        let clip = clip_of(vec![], samples_per_beat, first_beat_sample);
        let want = (samples_per_beat as f64 * beat) as usize + first_beat_sample as usize;
        assert_eq!(clip.beat_to_sample(b(beat)), want, "{samples_per_beat} {beat}");
        assert_eq!(clip.checked_beat_to_sample(b(beat)), Some(want));
    }
}

#[test]
fn checked_beat_to_sample_refuses_what_no_index_holds() {
    let clip = clip_of(vec![], 22050, 1);
    assert_eq!(clip.checked_beat_to_sample(b(f64::INFINITY)), None);
    assert_eq!(clip.checked_beat_to_sample(b(1e300)), None);
    assert_eq!(clip.checked_beat_to_sample(b(2.0)), Some(44101));
    let at_start = clip_of(vec![], 22050, 0);
    assert_eq!(at_start.checked_beat_to_sample(b(f64::INFINITY)), Some(usize::MAX));
}

#[test]
fn times_are_counts_over_the_mix_rate() {
    let clip = clip_of(ramp(1000), 22050, 441);
    assert_eq!(seconds(clip.beat_time()), 0.5);
    assert_eq!(seconds(clip.start_time()), 0.01);
    assert_eq!(seconds(clip.duration()), 1000.0 / 44100.0);
    assert_eq!(seconds(clip.beats()), 559.0 / 22050.0);
    let odd = clip_of(ramp(7), 12345, 3);
    assert_eq!(seconds(odd.beat_time()), 12345.0 / 44100.0);
    assert_eq!(seconds(odd.beats()), 4.0 / 12345.0);
}

#[test]
fn set_beat_time_counts_samples() {
    let mut clip = MusicClip::new();
    assert!(clip.set_beat_time(b(0.25)));
    assert_eq!(clip.samples_per_beat, 11025);
    assert!(clip.set_beat_time(b(1.0 / 3.0)));
    assert_eq!(clip.samples_per_beat, (1.0f64 / 3.0 * 44100.0) as u32);
    assert!(clip.set_beat_time(b(1e9)));
    assert_eq!(clip.samples_per_beat, u32::MAX);
    assert!(clip.set_beat_time(b(1.0 / 44100.0)));
    assert_eq!(clip.samples_per_beat, 1);
    assert_eq!(clip.first_beat_sample, 0);
}

#[test]
fn set_beat_time_refuses_a_beat_without_samples() {
    for beat_time in [0.0, -0.0, -1.0, 1e-6, 0.9 / 44100.0, f64::NAN, f64::NEG_INFINITY] {
        let mut clip = clip_of(ramp(3), 100, 2);
        assert!(!clip.set_beat_time(b(beat_time)), "{beat_time}");
        assert_eq!(clip.samples_per_beat, 100);
        assert_eq!(clip.first_beat_sample, 2);
        assert_eq!(clip.num_samples(), 3);
    }
}

#[test]
fn extend_grows_with_silence_and_never_shrinks() {
    let mut clip = clip_of(frames(&[(0.5, -0.5), (0.25, 0.75)]), 4, 1);
    clip.extend(b(1.0));
    assert_eq!(clip.num_samples(), 5);
    assert_eq!(clip.audio_data, frames(&[(0.5, -0.5), (0.25, 0.75), (0.0, 0.0), (0.0, 0.0), (0.0, 0.0)]));
    assert!(clip.audio_stream_dirty);
    clip.extend(b(0.5));
    assert_eq!(clip.num_samples(), 5);
    clip.extend(b(-0.25));
    assert_eq!(clip.num_samples(), 5);
}

#[test]
fn extend_puts_the_encoded_stream_out_of_date() {
    let mut clip = clip_of(frames(&[(0.5, -0.5)]), 4, 0);
    clip.audio_stream_dirty = true;
    clip.play_audio();
    assert!(!clip.audio_stream_dirty);
    assert_eq!(clip.audio_stream.data, vec![0xff, 0x3f, 0x01, 0xc0]);
    clip.extend(b(0.5));
    assert!(clip.audio_stream_dirty);
    clip.play_audio();
    assert!(!clip.audio_stream_dirty);
    assert_eq!(
        clip.audio_stream.data,
        vec![0xff, 0x3f, 0x01, 0xc0, 0, 0, 0, 0]
    );
}

#[test]
fn extend_twice_is_extend_once() {
    for duration in [0.0, 0.3, 1.0, 2.5, 7.0] {
        let mut clip = clip_of(ramp(9), 4, 2);
        clip.extend(b(duration));
        let once = clip.audio_data.clone();
        clip.extend(b(duration));
        assert_eq!(clip.audio_data, once);
        assert_eq!(clip.num_samples(), once.len());
    }
}

#[test]
fn trim_copies_the_range_and_starts_a_new_grid() {
    let clip = clip_of(ramp(40), 8, 4);
    let part = clip.trim(b(0.5), b(3.0));
    assert_eq!(part.num_samples(), clip.beat_to_sample(b(3.0)) - clip.beat_to_sample(b(0.5)));
    assert_eq!(part.num_samples(), 20);
    assert_eq!(part.audio_data[..], clip.audio_data[8..28]);
    assert_eq!(part.first_beat_sample, 0);
    assert_eq!(part.samples_per_beat, 8);
    assert!(part.audio_stream_dirty);
    assert!(is_default(&part.audio_stream));
    assert_eq!(clip.num_samples(), 40);
}

#[test]
fn trim_of_an_empty_range_is_empty() {
    let clip = clip_of(ramp(40), 8, 4);
    assert_eq!(clip.trim(b(1.0), b(1.0)).num_samples(), 0);
    assert_eq!(clip.trim(b(4.5), b(4.5)).num_samples(), 0);
    assert_eq!(clip.trim(b(0.0), b(4.5)).num_samples(), 36);
}

#[test]
fn write_silence_zeroes_the_range_only() {
    let mut clip = clip_of(ramp(20), 4, 2);
    let before = clip.audio_data.clone();
    clip.write_silence(b(1.0), b(2.5));
    assert_eq!(clip.num_samples(), 20);
    for i in 0..20 {
        if (6..12).contains(&i) {
            assert_eq!(clip.audio_data[i], (s(0.0), s(0.0)));
        } else {
            assert_eq!(clip.audio_data[i], before[i]);
        }
    }
    assert!(clip.audio_stream_dirty);
}

#[test]
fn write_silence_grows_the_buffer() {
    let mut clip = clip_of(ramp(5), 4, 0);
    let before = clip.audio_data.clone();
    clip.write_silence(b(2.0), b(3.0));
    assert_eq!(clip.num_samples(), 12);
    for i in 0..12 {
        if i < 5 {
            assert_eq!(clip.audio_data[i], before[i]);
        } else {
            assert_eq!(clip.audio_data[i], (s(0.0), s(0.0)));
        }
    }
}

#[test]
fn clear_empties_and_marks() {
    let mut clip = clip_of(ramp(5), 4, 0);
    clip.clear();
    assert_eq!(clip.num_samples(), 0);
    assert!(clip.audio_stream_dirty);
    assert_eq!(clip.samples_per_beat, 4);
}

#[test]
fn set_looping_ends_on_an_eighth() {
    let mut clip = clip_of(ramp(1000), 80, 0);
    clip.set_looping(true);
    assert!(clip.is_looping());
    assert_eq!(clip.audio_stream.loop_begin, 0);
    assert_eq!(clip.audio_stream.loop_end, 1000);
    let mut odd = clip_of(ramp(1007), 80, 0);
    odd.set_looping(true);
    assert_eq!(odd.audio_stream.loop_end, 1000);
    assert_eq!(odd.audio_stream.loop_end % 10, 0);
    assert!(odd.audio_stream.loop_end <= odd.num_samples());
    odd.set_looping(false);
    assert!(!odd.is_looping());
    assert_eq!(odd.audio_stream.loop_end, 1000);
}

#[test]
fn set_looping_counts_from_the_first_beat() {
    let mut clip = clip_of(ramp(1007), 80, 23);
    clip.set_looping(true);
    assert_eq!(clip.audio_stream.loop_begin, 23);
    assert_eq!(clip.audio_stream.loop_end, 23 + 980);
    assert_eq!((clip.audio_stream.loop_end - clip.audio_stream.loop_begin) % 10, 0);
    assert!(clip.audio_stream.loop_end <= clip.num_samples());
    assert!(!clip.audio_stream_dirty);
}

#[test]
fn set_looping_on_random_clips_stays_within_the_buffer() {
    let mut state: u64 = 0xbb67_ae85_84ca_a73b;
    for _ in 0..2000 {
        let x = turn(&mut state);
        let samples_per_beat = 8 + (x & 0x3ff) as u32;
        let count = ((x >> 10) & 0x7ff) as usize;
        let first = ((x >> 24) as usize) % (count + 1);
        let mut clip = clip_of(ramp(count), samples_per_beat, first as u32);
        clip.set_looping(true);
        let eighth = (samples_per_beat / 8) as usize;
        assert_eq!(clip.audio_stream.loop_begin, first);
        assert!(clip.audio_stream.loop_end <= count);
        assert_eq!((clip.audio_stream.loop_end - first) % eighth, 0);
        assert!(count - clip.audio_stream.loop_end < eighth);
    }
}

#[test]
fn play_audio_encodes_once() {
    let mut clip = clip_of(frames(&[(0.5, -0.5), (1.0, -1.0)]), 4, 0);
    clip.play_audio();
    assert!(clip.audio_stream.data.is_empty());
    clip.write_silence(b(0.0), b(0.0));
    assert!(clip.audio_stream_dirty);
    clip.play_audio();
    assert!(!clip.audio_stream_dirty);
    assert_eq!(clip.audio_stream.data, vec![0xff, 0x3f, 0x01, 0xc0, 0xff, 0x7f, 0x01, 0x80]);
    assert_eq!(clip.audio_stream.data, encode(&clip.audio_data));
    // a change that does not mark the clip is not encoded
    clip.audio_data[0] = (s(0.0), s(0.0));
    clip.play_audio();
    assert_eq!(clip.audio_stream.data, vec![0xff, 0x3f, 0x01, 0xc0, 0xff, 0x7f, 0x01, 0x80]);
    clip.clear();
    clip.play_audio();
    assert!(clip.audio_stream.data.is_empty());
    assert!(!clip.audio_stream_dirty);
}

#[test]
fn play_audio_keeps_the_loop() {
    let mut clip = clip_of(ramp(100), 80, 0);
    clip.set_looping(true);
    clip.write_silence(b(0.0), b(0.1));
    clip.play_audio();
    assert!(clip.is_looping());
    assert_eq!(clip.audio_stream.loop_end, 100);
    assert_eq!(clip.audio_stream.data.len(), 400);
    assert_eq!(clip.audio_stream.mix_rate, 44100);
    assert_eq!(clip.audio_stream.format, SampleFormat::SixteenBits);
}

#[test]
fn provided_clip_starts_blank() {
    let provided = ProvidedMusicClip::new();
    assert!(provided.audio_stream.data.is_empty());
    assert_eq!(provided.audio_stream.format, SampleFormat::EightBits);
    assert!(!provided.audio_stream.stereo);
    assert_eq!(provided.samples_per_beat, 22050);
    assert_eq!(provided.first_beat_sample, 0);
    assert_eq!(provided.as_music_clip().num_samples(), 0);
}

#[test]
fn provided_clip_decodes_into_a_clip_of_its_own() {
    let mut provided = ProvidedMusicClip::new();
    provided.audio_stream.data = vec![0x00, 0x40, 0x00, 0xc0, 0xff, 0x7f, 0x01, 0x80, 0x55];
    provided.samples_per_beat = 11025;
    provided.first_beat_sample = 1;
    let clip = provided.as_music_clip();
    assert_eq!(clip.num_samples(), 2);
    assert_eq!(clip.audio_data[0], (s(0.5), s(-0.5)));
    assert_eq!(clip.audio_data[1], (s(32767.0 / 32768.0), s(-32767.0 / 32768.0)));
    assert_eq!(clip.samples_per_beat, 11025);
    assert_eq!(clip.first_beat_sample, 1);
    assert!(clip.audio_stream_dirty);
    assert!(is_default(&clip.audio_stream));
    assert_eq!(provided.audio_stream.data.len(), 9);
}

#[test]
fn hello_world_greets() {
    assert_eq!(HelloWorld::new().greeting(), "Hello, world.");
}

#[test]
fn a_copy_of_a_clip_is_edited_on_its_own() {
    let clip = clip_of(ramp(6), 4, 1);
    let mut copy = clip.clone();
    copy.clear();
    assert_eq!(clip.num_samples(), 6);
    assert_eq!(copy.num_samples(), 0);
    assert_eq!(copy.samples_per_beat, 4);
    assert_eq!(copy.first_beat_sample, 1);
}
