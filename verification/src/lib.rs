//! Beat-synchronised audio clips: stereo sample buffers on a beat grid, with
//! the edits, effects and PCM encoding that a playback sink needs.
//!
//! Samples are single-precision numbers and beats are double-precision
//! numbers. Both are held by their encodings and computed on with integer
//! arithmetic, so that every result is stated and proved to the last bit.

pub mod rounding;
pub mod double;
pub mod single;
pub mod codec;
pub mod stream;
pub mod clip;
pub mod mix;
pub mod resample;
pub mod effects;
pub mod provided;
pub mod laws;
pub mod codec_laws;

pub use clip::MusicClip;
pub use double::Double;
pub use provided::{HelloWorld, ProvidedMusicClip};
pub use single::Single;
pub use stream::AudioStream;
