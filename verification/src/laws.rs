//! What holds of the operations on clips, whatever the clip.

use vstd::prelude::*;
use vstd::arithmetic::power2::lemma2_to64;
use crate::clip::{extended, silence, silenced, Frame, MusicClip};
use crate::double::Double;
use crate::effects::{delayed, dry, dry_gain, echoed, DECAY};
use crate::mix::{frame_sum, mixed, mixed_down};
use crate::resample::{source_span, written};
use crate::rounding::{
    count_in,
    nearest_even,
    rounding_quantum,
    widened,
    lemma_bit_length_is,
    lemma_ratio_top_whole,
};
use crate::single::{Single, SINGLE_ONE, SINGLE_SIGN};

verus! {

/// Extending twice by the same duration is extending once: the second call
/// finds the buffer long enough and leaves its samples as they are.
pub proof fn law_extend_twice(
    before: MusicClip,
    once: MusicClip,
    twice: MusicClip,
    duration: Double,
)
    requires
        0 <= before.sample_at(duration),
        once.audio_data@ == extended(before.audio_data@, before.sample_at(duration) as nat),
        once.same_grid(&before),
        twice.audio_data@ == extended(once.audio_data@, once.sample_at(duration) as nat),
    ensures
        twice.audio_data@ == once.audio_data@,
        twice.audio_data.len() == once.audio_data.len(),
{
}

/// An extended buffer is as long as the longer of the buffer and the length
/// asked for, and begins with the buffer.
pub proof fn law_extend_length(samples: Seq<Frame>, length: nat)
    ensures
        extended(samples, length).len() == vstd::math::max(samples.len() as int, length as int),
        extended(samples, length).subrange(0, samples.len() as int) == samples,
{
    assert(extended(samples, length).subrange(0, samples.len() as int) =~= samples);
}

/// Writing silence puts silence at the samples from `start` up to `end`, and
/// at those by which the buffer had to grow; every other sample stays.
pub proof fn law_silence_exact(samples: Seq<Frame>, start: nat, end: nat, index: int)
    requires
        start <= end,
        0 <= index < silenced(samples, start, end).len(),
    ensures
        silenced(samples, start, end).len() == vstd::math::max(samples.len() as int, end as int),
        start <= index < end || index >= samples.len() ==> silenced(samples, start, end)[index]
            == silence(),
        !(start <= index < end) && index < samples.len() ==> silenced(samples, start, end)[index]
            == samples[index],
{
}

/// Mixing one source into silence gives the source: each sample within the
/// range and the source is the source's sample, wherever the range starts.
/// This holds of every sample that is a number and is not negative zero;
/// added to silence, negative zero comes out positive.
pub proof fn law_single_source_mix(
    target: Seq<Frame>,
    source: MusicClip,
    start: nat,
    end: nat,
    index: int,
)
    requires
        start <= index < end,
        index < source.audio_data.len(),
        extended(target, end)[index] == silence(),
        !source.audio_data[index].0.is_nan(),
        !source.audio_data[index].1.is_nan(),
        source.audio_data[index].0.bits != SINGLE_SIGN,
        source.audio_data[index].1.bits != SINGLE_SIGN,
    ensures
        mixed_down(target, seq![source], start, end)[index] == source.audio_data[index],
{
    let sources = seq![source];
    let base = extended(target, end)[index];
    let frame = source.audio_data[index];
    assert(sources[0] == source);
    assert(mixed(base, sources, 0, index, start as int, end as int) == base);
    assert(mixed(base, sources, 1, index, start as int, end as int) == frame_sum(base, frame));
    frame.0.lemma_sum_zero();
    frame.1.lemma_sum_zero();
}

/// Outside the range, or behind the end of its only source, a mixed
/// buffer keeps what it held.
pub proof fn law_single_source_mix_elsewhere(
    target: Seq<Frame>,
    source: MusicClip,
    start: nat,
    end: nat,
    index: int,
)
    requires
        0 <= index < extended(target, end).len(),
        !(start <= index < end) || index >= source.audio_data.len(),
    ensures
        mixed_down(target, seq![source], start, end)[index] == extended(target, end)[index],
{
    let sources = seq![source];
    let base = extended(target, end)[index];
    assert(sources[0] == source);
    assert(mixed(base, sources, 0, index, start as int, end as int) == base);
    assert(mixed(base, sources, 1, index, start as int, end as int) == base);
}

/// At a pitch of one, `write_sample` moves the source's samples as they
/// are: the sample written at `offset` behind the target's start is the
/// source's sample at `offset` behind the source's start, and as many
/// samples are written as are read.
pub proof fn law_unit_pitch_copies(
    target: MusicClip,
    target_start: Double,
    source: MusicClip,
    source_start: Double,
    source_end: Double,
    offset: nat,
)
    requires
        target.can_write_sample(
            target_start,
            &source,
            source_start,
            source_end,
            Single { bits: SINGLE_ONE },
        ),
        offset < source_span(
            source.audio_data.len() as nat,
            source.sample_at(source_start) as nat,
            source.sample_at(source_end) as nat,
        ),
    ensures
        target.after_write_sample(
            target_start,
            &source,
            source_start,
            source_end,
            Single { bits: SINGLE_ONE },
        )[(target.sample_at(target_start) + offset) as int] == source.audio_data[(
        source.sample_at(source_start) + offset) as int],
{
}

/// The share of the input in the delayed signal is six tenths: that is what
/// one less four tenths rounds to.
pub proof fn law_dry_gain()
    ensures
        dry_gain() == (Single { bits: 0x3f19_999a }),
{
    reveal(Single::sum);
    let one = Single { bits: SINGLE_ONE };
    let decay = Single { bits: DECAY };
    let minus_decay = decay.opposite();
    assert(minus_decay.bits == 0xbecc_cccd);
    assert(one.exponent_field() == 127 && one.fraction_field() == 0);
    assert(minus_decay.exponent_field() == 125 && minus_decay.fraction_field() == 0x4c_cccd);
    assert(one.quantum() == -23 && one.significand() == 0x80_0000);
    assert(minus_decay.quantum() == -25 && minus_decay.significand() == 0xcc_cccd);
    lemma2_to64();
    assert(one.scaled_to(-25) == 0x200_0000);
    assert(minus_decay.scaled_to(-25) == -0xcc_cccd);
    let total: nat = 20132659;
    lemma_bit_length_is(total, 25);
    lemma_ratio_top_whole(total);
    assert(rounding_quantum(total, 1, -25, 24, -149) == -24);
    assert(widened(total, -1) == total);
    assert(widened(1, 1) == 2);
    assert(nearest_even(total, 2) == 10066330);
    assert(count_in(total, 1, -25, -24) == 10066330);
}

/// The delayed signal before the first echo is the input at six tenths.
pub proof fn law_delay_head(input: Seq<Frame>, step: nat, index: int)
    requires
        0 <= index < step,
    ensures
        delayed(input, step, index) == dry(input[index]),
        dry(input[index]) == (
            input[index].0.product(Single { bits: 0x3f19_999a }),
            input[index].1.product(Single { bits: 0x3f19_999a }),
        ),
{
    law_dry_gain();
}

/// The first echo: at `step` the delayed signal is the input at six tenths
/// plus four tenths of the delayed signal at the start.
pub proof fn law_delay_first_echo(input: Seq<Frame>, step: nat)
    requires
        step > 0,
    ensures
        delayed(input, step, step as int) == echoed(dry(input[step as int]), delayed(input, step, 0)),
        delayed(input, step, step as int).0 == input[step as int].0.product(
            Single { bits: 0x3f19_999a },
        ).sum(delayed(input, step, 0).0.product(Single { bits: DECAY })),
        delayed(input, step, step as int).1 == input[step as int].1.product(
            Single { bits: 0x3f19_999a },
        ).sum(delayed(input, step, 0).1.product(Single { bits: DECAY })),
{
    law_dry_gain();
    assert(delayed(input, step, step as int) == echoed(
        dry(input[step as int]),
        delayed(input, step, step - step),
    ));
}

/// The loop that `set_looping` sets lies within the buffer, and its length
/// is a whole number of eighths of a beat. Where the first beat falls on an
/// eighth, so does the loop's end.
pub proof fn law_loop_end(clip: MusicClip)
    requires
        clip.samples_per_beat >= 8,
        clip.first_beat_sample <= clip.audio_data.len(),
    ensures
        0 <= clip.loop_length(),
        clip.first_beat_sample + clip.loop_length() <= clip.audio_data.len(),
        clip.loop_length() % (clip.samples_per_beat as int / 8) == 0,
        clip.first_beat_sample as int % (clip.samples_per_beat as int / 8) == 0 ==> (
        clip.first_beat_sample + clip.loop_length()) % (clip.samples_per_beat as int / 8) == 0,
{
    let eighth = clip.samples_per_beat as int / 8;
    let duration = clip.audio_data.len() - clip.first_beat_sample;
    let first = clip.first_beat_sample as int;
    assert(eighth >= 1);
    vstd::arithmetic::div_mod::lemma_fundamental_div_mod(duration, eighth);
    vstd::arithmetic::div_mod::lemma_mod_pos_bound(duration, eighth);
    let whole = duration / eighth;
    assert(clip.loop_length() == eighth * whole);
    vstd::arithmetic::div_mod::lemma_mod_multiples_basic(whole, eighth);
    assert((whole * eighth) % eighth == 0);
    assert(eighth * whole == whole * eighth) by (nonlinear_arith);
    if first % eighth == 0 {
        vstd::arithmetic::div_mod::lemma_mod_multiples_vanish(whole, first, eighth);
        assert((eighth * whole + first) % eighth == first % eighth);
    }
}

} // verus!
