//! The encoded form of a clip, as the playback sink takes it: PCM bytes with
//! their format and the loop settings.

use vstd::prelude::*;

verus! {

/// Samples per second of every stream.
pub const MIX_RATE: u32 = 44100;

/// How many bits one channel of one sample takes in the byte stream.
#[derive(Clone, Copy, Debug, PartialEq, Eq, Structural)]
pub enum SampleFormat {
    EightBits,
    SixteenBits,
}

/// Whether the sink starts over at the loop's begin when it reaches its end.
#[derive(Clone, Copy, Debug, PartialEq, Eq, Structural)]
pub enum LoopMode {
    Disabled,
    Forward,
}

/// A PCM byte stream with what the sink has to know to play it.
#[derive(Clone, Debug)]
pub struct AudioStream {
    pub data: Vec<u8>,
    pub format: SampleFormat,
    pub mix_rate: u32,
    pub stereo: bool,
    pub loop_mode: LoopMode,
    pub loop_begin: usize,
    pub loop_end: usize,
}

impl AudioStream {
    /// Whether the stream is the one every clip starts with: no data,
    /// sixteen bits, stereo, at the mix rate, not looping.
    pub open spec fn is_default(&self) -> bool {
        &&& self.data@ == Seq::<u8>::empty()
        &&& self.format == SampleFormat::SixteenBits
        &&& self.mix_rate == MIX_RATE
        &&& self.stereo
        &&& self.loop_mode == LoopMode::Disabled
        &&& self.loop_begin == 0
        &&& self.loop_end == 0
    }

    /// Whether the stream is one that nothing was set on: no data, eight
    /// bits, mono, at the mix rate, not looping.
    pub open spec fn is_blank(&self) -> bool {
        &&& self.data@ == Seq::<u8>::empty()
        &&& self.format == SampleFormat::EightBits
        &&& self.mix_rate == MIX_RATE
        &&& !self.stereo
        &&& self.loop_mode == LoopMode::Disabled
        &&& self.loop_begin == 0
        &&& self.loop_end == 0
    }

    /// Makes a stream that nothing was set on.
    pub fn new() -> (stream: AudioStream)
        ensures
            stream.is_blank(),
    {
        AudioStream {
            data: Vec::new(),
            format: SampleFormat::EightBits,
            mix_rate: MIX_RATE,
            stereo: false,
            loop_mode: LoopMode::Disabled,
            loop_begin: 0,
            loop_end: 0,
        }
    }

    /// Whether two streams differ in their data at most.
    pub open spec fn same_settings(&self, other: &AudioStream) -> bool {
        &&& self.format == other.format
        &&& self.mix_rate == other.mix_rate
        &&& self.stereo == other.stereo
        &&& self.loop_mode == other.loop_mode
        &&& self.loop_begin == other.loop_begin
        &&& self.loop_end == other.loop_end
    }
}

/// Makes the stream that every clip starts with.
pub fn make_default_audio_stream() -> (stream: AudioStream)
    ensures
        stream.is_default(),
{
    AudioStream {
        data: Vec::new(),
        format: SampleFormat::SixteenBits,
        mix_rate: MIX_RATE,
        stereo: true,
        loop_mode: LoopMode::Disabled,
        loop_begin: 0,
        loop_end: 0,
    }
}

} // verus!
