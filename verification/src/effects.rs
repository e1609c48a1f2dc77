//! The two effects: a feedback delay and a soft clip. Each derives a new clip
//! and leaves its input as it is.

use vstd::prelude::*;
use crate::clip::{Frame, MusicClip};
use crate::single::{Single, SINGLE_ONE};

verus! {

/// The encoding of `0.4`, the share of the echo in the delayed signal.
pub const DECAY: u32 = 0x3ecc_cccd;

/// The encoding of `3.0`, the drive of the soft clip.
pub const DRIVE: u32 = 0x4040_0000;

/// The encoding of `2.0`.
pub const TWO: u32 = 0x4000_0000;

/// The share of the input in the delayed signal: one less the decay.
pub open spec fn dry_gain() -> Single {
    Single::one(false).difference(Single { bits: DECAY })
}

/// The distance in samples between a sound and its echo: three quarters of
/// a beat.
pub open spec fn delay_step(samples_per_beat: u32) -> nat {
    (samples_per_beat as nat * 3) / 4
}

/// A stereo sample at the share that the input has in the delayed signal.
pub open spec fn dry(frame: Frame) -> Frame {
    (frame.0.product(dry_gain()), frame.1.product(dry_gain()))
}

/// A stereo sample with the echo of an earlier one added to it.
pub open spec fn echoed(current: Frame, earlier: Frame) -> Frame {
    (
        current.0.sum(earlier.0.product(Single { bits: DECAY })),
        current.1.sum(earlier.1.product(Single { bits: DECAY })),
    )
}

/// The delayed signal at `index`: the input at its share, and from `step` on
/// the echo of the delayed signal `step` samples earlier. The echo is taken
/// from the output, so it comes again and again, each time weaker. With a
/// step of zero a sample echoes itself once.
pub open spec fn delayed(input: Seq<Frame>, step: nat, index: int) -> Frame
    decreases index,
{
    if step == 0 {
        echoed(dry(input[index]), dry(input[index]))
    } else if index < step {
        dry(input[index])
    } else {
        echoed(dry(input[index]), delayed(input, step, index - step))
    }
}

/// The whole delayed signal.
pub open spec fn delayed_signal(input: Seq<Frame>, step: nat) -> Seq<Frame> {
    Seq::new(input.len(), |index: int| delayed(input, step, index))
}

/// What the exponential of the driven sample is mapped to: twice its share
/// in itself and one, less one. An exponential beyond the finite range has
/// all of that share, so it is mapped to one: large samples saturate.
pub open spec fn soft_clip(exponential: Single) -> Single {
    if exponential.is_infinite() && !exponential.negative() {
        Single::one(false)
    } else {
        Single { bits: TWO }.product(
            exponential.quotient(exponential.sum(Single::one(false))),
        ).difference(Single::one(false))
    }
}

/// A sample times the drive.
pub open spec fn driven(sample: Single) -> Single {
    sample.product(Single { bits: DRIVE })
}

/// Whether `output` is the soft clip of `input`, given the function that
/// stands for the exponential.
pub open spec fn clipped_by<F: Fn(Single) -> Single>(exp: F, input: Single, output: Single) -> bool {
    exists|exponential: Single| #[trigger]
        exp.ensures((driven(input),), exponential) && output == soft_clip(exponential)
}

/// Maps the exponential of a driven sample to the clipped sample.
pub fn soft_clip_of(exponential: Single) -> (sample: Single)
    ensures
        sample == soft_clip(exponential),
{
    let one: Single = Single::from_bits(SINGLE_ONE);
    if exponential.check_infinite() && !exponential.sign_of() {
        return one;
    }
    Single::from_bits(TWO).times(exponential.divided_by(exponential.plus(one))).minus(one)
}

impl MusicClip {
    /// Derives the clip with the feedback delay applied: every sample at
    /// six tenths, plus four tenths of the output three quarters of a beat
    /// earlier.
    pub fn delay(&self) -> (clip: MusicClip)
        ensures
            clip.derives(
                self,
                delayed_signal(self.audio_data@, delay_step(self.samples_per_beat)),
            ),
    {
        let length: usize = self.audio_data.len();
        let step: u64 = (self.samples_per_beat as u64) * 3 / 4;
        let decay: Single = Single::from_bits(DECAY);
        let gain: Single = Single::from_bits(SINGLE_ONE).minus(decay);
        let mut samples: Vec<Frame> = Vec::new();
        let mut index: usize = 0;
        while index < length
            invariant
                length == self.audio_data.len(),
                index <= length,
                samples.len() == index,
                gain == dry_gain(),
                forall|i: int| 0 <= i < index ==> samples[i] == dry(#[trigger] self.audio_data[i]),
            decreases length - index,
        {
            let frame: Frame = self.audio_data[index];
            samples.push((frame.0.times(gain), frame.1.times(gain)));
            index = index + 1;
        }
        if step <= length as u64 {
            let ghost input = self.audio_data@;
            let ghost distance = step as nat;
            let first: usize = step as usize;
            let mut sample: usize = first;
            while sample < length
                invariant
                    length == input.len(),
                    samples.len() == length,
                    first == distance,
                    first <= sample <= length,
                    decay.bits == DECAY,
                    forall|i: int|
                        0 <= i < length ==> samples[i] == (if i < sample {
                            delayed(input, distance, i)
                        } else {
                            dry(input[i])
                        }),
                decreases length - sample,
            {
                let earlier: Frame = samples[sample - first];
                let current: Frame = samples[sample];
                samples[sample] = (
                    current.0.plus(earlier.0.times(decay)),
                    current.1.plus(earlier.1.times(decay)),
                );
                sample = sample + 1;
            }
        }
        assert(samples@ =~= delayed_signal(self.audio_data@, delay_step(self.samples_per_beat)));
        self.derive(samples)
    }

    /// Derives the clip with the soft clip applied to each channel of each
    /// sample. `exp` stands for the exponential function on single-precision
    /// numbers; it is handed the sample times three.
    pub fn distort<F: Fn(Single) -> Single>(&self, exp: F) -> (clip: MusicClip)
        requires
            forall|x: Single| #[trigger] exp.requires((x,)),
        ensures
            clip.audio_data.len() == self.audio_data.len(),
            forall|i: int|
                0 <= i < self.audio_data.len() ==> clipped_by(
                    exp,
                    self.audio_data[i].0,
                    (#[trigger] clip.audio_data[i]).0,
                ) && clipped_by(exp, self.audio_data[i].1, clip.audio_data[i].1),
            clip.derives(self, clip.audio_data@),
    {
        let length: usize = self.audio_data.len();
        let drive: Single = Single::from_bits(DRIVE);
        let mut samples: Vec<Frame> = Vec::new();
        let mut index: usize = 0;
        while index < length
            invariant
                length == self.audio_data.len(),
                index <= length,
                samples.len() == index,
                drive.bits == DRIVE,
                forall|x: Single| #[trigger] exp.requires((x,)),
                forall|i: int|
                    0 <= i < index ==> clipped_by(
                        exp,
                        self.audio_data[i].0,
                        (#[trigger] samples[i]).0,
                    ) && clipped_by(exp, self.audio_data[i].1, samples[i].1),
            decreases length - index,
        {
            let frame: Frame = self.audio_data[index];
            let left_exponential: Single = exp(frame.0.times(drive));
            let right_exponential: Single = exp(frame.1.times(drive));
            let left: Single = soft_clip_of(left_exponential);
            let right: Single = soft_clip_of(right_exponential);
            proof {
                assert(exp.ensures((driven(frame.0),), left_exponential));
                assert(exp.ensures((driven(frame.1),), right_exponential));
                assert(clipped_by(exp, frame.0, left));
                assert(clipped_by(exp, frame.1, right));
            }
            samples.push((left, right));
            index = index + 1;
        }
        self.derive(samples)
    }
}

} // verus!
