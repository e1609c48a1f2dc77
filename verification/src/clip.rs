//! The clip: a buffer of stereo samples on a beat grid, with the edits that
//! address it in beats.

use vstd::prelude::*;
use crate::codec::{encode, encoded};
use crate::double::Double;
use crate::single::Single;
use crate::stream::{make_default_audio_stream, AudioStream, LoopMode, MIX_RATE};

verus! {

/// Samples per beat of a clip that was not told otherwise: half a second.
pub const DEFAULT_SAMPLES_PER_BEAT: u32 = 22050;

/// One stereo sample: left, then right.
pub type Frame = (Single, Single);

/// The stereo sample of silence.
pub open spec fn silence() -> Frame {
    (Single { bits: 0 }, Single { bits: 0 })
}

/// A buffer grown with silence to `length` samples; a buffer that is as long
/// already stays as it is.
pub open spec fn extended(samples: Seq<Frame>, length: nat) -> Seq<Frame> {
    if samples.len() >= length {
        samples
    } else {
        samples + Seq::new((length - samples.len()) as nat, |i: int| silence())
    }
}

/// A buffer with silence at every position from `start` up to `end`, grown to
/// `end` where it was shorter.
pub open spec fn silenced(samples: Seq<Frame>, start: nat, end: nat) -> Seq<Frame> {
    Seq::new(
        extended(samples, end).len(),
        |i: int|
            if start <= i < end {
                silence()
            } else {
                extended(samples, end)[i]
            },
    )
}

/// A clip of music: the samples, the beat grid, and the encoded stream that
/// is made from the samples when it is asked for.
#[derive(Clone, Debug)]
pub struct MusicClip {
    pub audio_data: Vec<Frame>,
    pub audio_stream: AudioStream,
    pub audio_stream_dirty: bool,
    pub samples_per_beat: u32,
    pub first_beat_sample: u32,
}

impl MusicClip {
    /// The invariant of the beat grid: a beat lasts at least one sample.
    pub open spec fn well_formed(&self) -> bool {
        self.samples_per_beat > 0
    }

    /// Whether two clips have the same beat grid.
    pub open spec fn same_grid(&self, other: &MusicClip) -> bool {
        &&& self.samples_per_beat == other.samples_per_beat
        &&& self.first_beat_sample == other.first_beat_sample
    }

    /// The number of samples from the first beat to `beat`: the rounded
    /// product of the beat's length and `beat`, its fraction cut off towards
    /// zero. It is negative for a beat before the first, zero for a beat
    /// that is not a number, and no larger in magnitude than an index can
    /// be.
    pub open spec fn beat_offset(&self, beat: Double) -> int {
        Double::of_integer(self.samples_per_beat as nat).product(beat).saturated_signed(
            usize::MAX as nat,
        )
    }

    /// The position of the sample at which `beat` falls, counted from the
    /// start of the buffer. It is an index where it is not negative and an
    /// index can hold it.
    pub open spec fn sample_at(&self, beat: Double) -> int {
        self.beat_offset(beat) + self.first_beat_sample
    }

    /// The mix rate as a double.
    pub open spec fn mix_rate() -> Double {
        Double::of_integer(MIX_RATE as nat)
    }

    /// The number of seconds that `count` samples last.
    pub open spec fn seconds(count: nat) -> Double {
        Double::of_integer(count).quotient(MusicClip::mix_rate())
    }

    /// The number of beats behind the first beat: the samples from the first
    /// beat on, over the samples of one beat.
    pub open spec fn beat_count(&self) -> Double {
        Double::of_integer((self.audio_data.len() - self.first_beat_sample) as nat).quotient(
            Double::of_integer(self.samples_per_beat as nat),
        )
    }

    /// The number of samples that a beat of `beat_time` seconds lasts: the
    /// rounded product with the mix rate, converted as a cast to a 32-bit
    /// count converts it.
    pub open spec fn samples_in(beat_time: Double) -> nat {
        beat_time.product(MusicClip::mix_rate()).saturated(u32::MAX as nat)
    }

    /// Whether the clip is what another clip derives: the given samples on
    /// the parent's tempo, with the first beat at the start, a fresh stream
    /// and the flag set.
    pub open spec fn derives(&self, parent: &MusicClip, samples: Seq<Frame>) -> bool {
        &&& self.audio_data@ == samples
        &&& self.audio_stream.is_default()
        &&& self.audio_stream_dirty
        &&& self.samples_per_beat == parent.samples_per_beat
        &&& self.first_beat_sample == 0
    }

    /// Makes an empty clip with a beat of half a second.
    pub fn new() -> (clip: MusicClip)
        ensures
            clip.audio_data@ == Seq::<Frame>::empty(),
            clip.audio_stream.is_default(),
            !clip.audio_stream_dirty,
            clip.samples_per_beat == DEFAULT_SAMPLES_PER_BEAT,
            clip.first_beat_sample == 0,
            clip.well_formed(),
    {
        MusicClip {
            audio_data: Vec::new(),
            audio_stream: make_default_audio_stream(),
            audio_stream_dirty: false,
            samples_per_beat: DEFAULT_SAMPLES_PER_BEAT,
            first_beat_sample: 0,
        }
    }

    /// Makes the clip that `self` derives with the given samples.
    pub fn derive(&self, samples: Vec<Frame>) -> (clip: MusicClip)
        ensures
            clip.derives(self, samples@),
    {
        MusicClip {
            audio_data: samples,
            audio_stream: make_default_audio_stream(),
            audio_stream_dirty: true,
            samples_per_beat: self.samples_per_beat,
            first_beat_sample: 0,
        }
    }

    /// The number of samples in the buffer.
    pub fn num_samples(&self) -> (count: usize)
        ensures
            count == self.audio_data.len(),
    {
        self.audio_data.len()
    }

    /// The length of a beat in seconds.
    pub fn beat_time(&self) -> (seconds: Double)
        ensures
            seconds == MusicClip::seconds(self.samples_per_beat as nat),
    {
        Double::from_u32(self.samples_per_beat).divided_by(Double::from_u32(MIX_RATE))
    }

    /// Sets the length of a beat, given in seconds, and tells whether it
    /// did. A length of less than one sample is refused, and the clip keeps
    /// the beat it had: a beat lasts at least one sample.
    pub fn set_beat_time(&mut self, beat_time: Double) -> (done: bool)
        ensures
            done == (MusicClip::samples_in(beat_time) > 0),
            final(self).samples_per_beat == (if done {
                MusicClip::samples_in(beat_time)
            } else {
                old(self).samples_per_beat as nat
            }),
            old(self).well_formed() ==> final(self).well_formed(),
            final(self).first_beat_sample == old(self).first_beat_sample,
            final(self).audio_data == old(self).audio_data,
            final(self).audio_stream == old(self).audio_stream,
            final(self).audio_stream_dirty == old(self).audio_stream_dirty,
    {
        let samples: u32 = beat_time.times(Double::from_u32(MIX_RATE)).to_u32();
        if samples == 0 {
            return false;
        }
        self.samples_per_beat = samples;
        true
    }

    /// The time of the first beat in seconds.
    pub fn start_time(&self) -> (seconds: Double)
        ensures
            seconds == MusicClip::seconds(self.first_beat_sample as nat),
    {
        Double::from_u32(self.first_beat_sample).divided_by(Double::from_u32(MIX_RATE))
    }

    /// The length of the buffer in seconds.
    pub fn duration(&self) -> (seconds: Double)
        ensures
            seconds == MusicClip::seconds(self.audio_data.len() as nat),
    {
        Double::from_usize(self.audio_data.len()).divided_by(Double::from_u32(MIX_RATE))
    }

    /// The number of beats that the buffer holds behind the first beat.
    pub fn beats(&self) -> (count: Double)
        requires
            self.first_beat_sample <= self.audio_data.len(),
        ensures
            count == self.beat_count(),
    {
        let samples: usize = self.audio_data.len() - self.first_beat_sample as usize;
        Double::from_usize(samples).divided_by(Double::from_u32(self.samples_per_beat))
    }

    /// The index of the sample at which `beat` falls, where there is one:
    /// where the position is not negative and an index can hold it.
    pub fn checked_beat_to_sample(&self, beat: Double) -> (sample: Option<usize>)
        ensures
            0 <= self.sample_at(beat) <= usize::MAX ==> sample == Some(
                self.sample_at(beat) as usize,
            ),
            self.sample_at(beat) < 0 || self.sample_at(beat) > usize::MAX ==> sample.is_none(),
    {
        let offset: i128 = Double::from_u32(self.samples_per_beat).times(beat).to_signed(
            usize::MAX as u64,
        );
        let position: i128 = offset + self.first_beat_sample as i128;
        if position < 0 || position > usize::MAX as i128 {
            None
        } else {
            Some(position as usize)
        }
    }

    /// The index of the sample at which `beat` falls.
    pub fn beat_to_sample(&self, beat: Double) -> (sample: usize)
        requires
            0 <= self.sample_at(beat) <= usize::MAX,
        ensures
            sample == self.sample_at(beat),
    {
        let offset: i128 = Double::from_u32(self.samples_per_beat).times(beat).to_signed(
            usize::MAX as u64,
        );
        (offset + self.first_beat_sample as i128) as usize
    }

    /// Grows the buffer with silence until it reaches `length` samples.
    pub fn grow_to(&mut self, length: usize)
        ensures
            final(self).audio_data@ == extended(old(self).audio_data@, length as nat),
            final(self).audio_stream == old(self).audio_stream,
            final(self).audio_stream_dirty == old(self).audio_stream_dirty,
            final(self).same_grid(old(self)),
    {
        while self.audio_data.len() < length
            invariant
                self.audio_stream == old(self).audio_stream,
                self.audio_stream_dirty == old(self).audio_stream_dirty,
                self.same_grid(old(self)),
                self.audio_data.len() >= old(self).audio_data@.len(),
                self.audio_data.len() <= length || self.audio_data@ == old(self).audio_data@,
                self.audio_data@ == extended(old(self).audio_data@, self.audio_data.len() as nat),
            decreases length - self.audio_data.len(),
        {
            self.audio_data.push((Single { bits: 0 }, Single { bits: 0 }));
            assert(self.audio_data@ =~= extended(old(self).audio_data@, self.audio_data.len() as nat));
        }
    }

    /// Grows the buffer with silence until it reaches the sample at which
    /// `duration` falls. A buffer that is as long already keeps its samples.
    /// The encoded stream counts as out of date afterwards.
    pub fn extend(&mut self, duration: Double)
        requires
            0 <= old(self).sample_at(duration) <= usize::MAX,
        ensures
            final(self).audio_data@ == extended(
                old(self).audio_data@,
                old(self).sample_at(duration) as nat,
            ),
            final(self).audio_stream == old(self).audio_stream,
            final(self).audio_stream_dirty,
            final(self).same_grid(old(self)),
    {
        let length: usize = self.beat_to_sample(duration);
        self.grow_to(length);
        self.audio_stream_dirty = true;
    }

    /// Derives the clip that holds the samples from `start` up to `end`.
    pub fn trim(&self, start: Double, end: Double) -> (clip: MusicClip)
        requires
            0 <= self.sample_at(start) <= self.sample_at(end) <= self.audio_data.len(),
        ensures
            clip.derives(
                self,
                self.audio_data@.subrange(self.sample_at(start) as int, self.sample_at(end) as int),
            ),
            clip.audio_data.len() == self.sample_at(end) - self.sample_at(start),
    {
        let start_sample: usize = self.beat_to_sample(start);
        let end_sample: usize = self.beat_to_sample(end);
        let mut samples: Vec<Frame> = Vec::new();
        let mut index: usize = start_sample;
        while index < end_sample
            invariant
                start_sample <= index <= end_sample <= self.audio_data.len(),
                samples@ == self.audio_data@.subrange(start_sample as int, index as int),
            decreases end_sample - index,
        {
            let frame: Frame = self.audio_data[index];
            samples.push(frame);
            index = index + 1;
            assert(samples@ =~= self.audio_data@.subrange(start_sample as int, index as int));
        }
        self.derive(samples)
    }

    /// Puts silence at every sample from `start` up to `end`, growing the
    /// buffer where it ends before `end`.
    pub fn write_silence(&mut self, start: Double, end: Double)
        requires
            0 <= old(self).sample_at(start) <= old(self).sample_at(end) <= usize::MAX,
        ensures
            final(self).audio_data@ == silenced(
                old(self).audio_data@,
                old(self).sample_at(start) as nat,
                old(self).sample_at(end) as nat,
            ),
            final(self).audio_stream == old(self).audio_stream,
            final(self).audio_stream_dirty,
            final(self).same_grid(old(self)),
    {
        let start_sample: usize = self.beat_to_sample(start);
        let end_sample: usize = self.beat_to_sample(end);
        self.grow_to(end_sample);
        let ghost grown = self.audio_data@;
        let mut index: usize = start_sample;
        while index < end_sample
            invariant
                start_sample <= index <= end_sample <= self.audio_data.len(),
                self.audio_data.len() == grown.len(),
                self.audio_stream == old(self).audio_stream,
                self.audio_stream_dirty == old(self).audio_stream_dirty,
                self.same_grid(old(self)),
                forall|i: int|
                    0 <= i < grown.len() ==> self.audio_data@[i] == (if start_sample <= i < index {
                        silence()
                    } else {
                        grown[i]
                    }),
            decreases end_sample - index,
        {
            self.audio_data[index] = (Single { bits: 0 }, Single { bits: 0 });
            index = index + 1;
        }
        self.audio_stream_dirty = true;
        assert(self.audio_data@ =~= silenced(
            old(self).audio_data@,
            start_sample as nat,
            end_sample as nat,
        ));
    }

    /// Empties the buffer.
    pub fn clear(&mut self)
        ensures
            final(self).audio_data@ == Seq::<Frame>::empty(),
            final(self).audio_stream == old(self).audio_stream,
            final(self).audio_stream_dirty,
            final(self).same_grid(old(self)),
    {
        self.audio_data.clear();
        self.audio_stream_dirty = true;
    }

    /// The length of the loop that ends on the last full eighth of a beat:
    /// the samples from the first beat on, less what is left over of an
    /// eighth.
    pub open spec fn loop_length(&self) -> int {
        let duration = self.audio_data.len() - self.first_beat_sample;
        duration - duration % (self.samples_per_beat as int / 8)
    }

    /// Sets the loop from the first beat to the last full eighth of a beat,
    /// and switches looping on or off.
    pub fn set_looping(&mut self, looping: bool)
        requires
            old(self).samples_per_beat >= 8,
            old(self).first_beat_sample <= old(self).audio_data@.len(),
        ensures
            final(self).audio_stream.loop_begin == old(self).first_beat_sample,
            final(self).audio_stream.loop_end == old(self).first_beat_sample + old(
                self,
            ).loop_length(),
            final(self).audio_stream.loop_mode == (if looping {
                LoopMode::Forward
            } else {
                LoopMode::Disabled
            }),
            final(self).audio_stream.data == old(self).audio_stream.data,
            final(self).audio_stream.format == old(self).audio_stream.format,
            final(self).audio_stream.mix_rate == old(self).audio_stream.mix_rate,
            final(self).audio_stream.stereo == old(self).audio_stream.stereo,
            final(self).audio_data == old(self).audio_data,
            final(self).audio_stream_dirty == old(self).audio_stream_dirty,
            final(self).same_grid(old(self)),
    {
        let first: usize = self.first_beat_sample as usize;
        let duration: usize = self.audio_data.len() - first;
        let eighth: usize = (self.samples_per_beat / 8) as usize;
        assert(duration % eighth <= duration) by (nonlinear_arith)
            requires
                eighth > 0,
                duration >= 0,
        ;
        let end: usize = first + duration - duration % eighth;
        self.audio_stream.loop_begin = first;
        self.audio_stream.loop_end = end;
        self.audio_stream.loop_mode = if looping {
            LoopMode::Forward
        } else {
            LoopMode::Disabled
        };
    }

    /// Whether the sink is told to loop.
    pub fn is_looping(&self) -> (looping: bool)
        ensures
            looping == (self.audio_stream.loop_mode != LoopMode::Disabled),
    {
        match self.audio_stream.loop_mode {
            LoopMode::Disabled => false,
            LoopMode::Forward => true,
        }
    }

    /// Brings the encoded stream up to date for playback: where the flag is
    /// set, the samples are encoded anew and the flag is cleared; where it is
    /// not, the stream stays as it is.
    pub fn play_audio(&mut self)
        ensures
            final(self).audio_stream.data@ == (if old(self).audio_stream_dirty {
                encoded(old(self).audio_data@)
            } else {
                old(self).audio_stream.data@
            }),
            final(self).audio_stream.same_settings(&old(self).audio_stream),
            !final(self).audio_stream_dirty,
            final(self).audio_data == old(self).audio_data,
            final(self).same_grid(old(self)),
    {
        if self.audio_stream_dirty {
            self.audio_stream_dirty = false;
            let data: Vec<u8> = encode(&self.audio_data);
            self.audio_stream.data = data;
        }
    }
}

} // verus!
