//! Music that comes with the game: a PCM stream as the host holds it, with
//! its beat grid.

use vstd::prelude::*;
use crate::clip::{Frame, MusicClip, DEFAULT_SAMPLES_PER_BEAT};
use crate::codec::{decode, decoded};
use crate::stream::{make_default_audio_stream, AudioStream};

verus! {

/// A clip that the game provides. Its stream is read and never changed.
#[derive(Clone, Debug)]
pub struct ProvidedMusicClip {
    pub audio_stream: AudioStream,
    pub samples_per_beat: u32,
    pub first_beat_sample: u32,
}

impl ProvidedMusicClip {
    /// Makes a provided clip without data, with a beat of half a second.
    pub fn new() -> (clip: ProvidedMusicClip)
        ensures
            clip.audio_stream.is_blank(),
            clip.samples_per_beat == DEFAULT_SAMPLES_PER_BEAT,
            clip.first_beat_sample == 0,
    {
        ProvidedMusicClip {
            audio_stream: AudioStream::new(),
            samples_per_beat: DEFAULT_SAMPLES_PER_BEAT,
            first_beat_sample: 0,
        }
    }

    /// Makes a clip that can be edited: the stream's bytes decoded, on the
    /// same beat grid, with a stream of its own that is yet to be encoded.
    pub fn as_music_clip(&self) -> (clip: MusicClip)
        ensures
            clip.audio_data@ == decoded(self.audio_stream.data@),
            clip.audio_stream.is_default(),
            clip.audio_stream_dirty,
            clip.samples_per_beat == self.samples_per_beat,
            clip.first_beat_sample == self.first_beat_sample,
    {
        let float_data: Vec<Frame> = decode(&self.audio_stream.data);
        MusicClip {
            audio_data: float_data,
            audio_stream: make_default_audio_stream(),
            audio_stream_dirty: true,
            samples_per_beat: self.samples_per_beat,
            first_beat_sample: self.first_beat_sample,
        }
    }
}

/// The class that shows that the library was loaded.
#[derive(Debug)]
pub struct HelloWorld;

impl HelloWorld {
    /// Makes the class.
    pub fn new() -> (hello: HelloWorld) {
        HelloWorld
    }

    /// The line that is printed when the class is ready.
    pub fn greeting(&self) -> (line: &'static str)
        ensures
            line@ == "Hello, world."@,
    {
        "Hello, world."
    }
}

} // verus!
