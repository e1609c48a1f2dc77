//! The PCM codec: interleaved 16-bit stereo bytes on one side, pairs of
//! single-precision samples on the other.
//!
//! Four bytes make one stereo sample: two for the left channel, then two for
//! the right, low byte first. Decoding and encoding are not inverse to each
//! other: a level is decoded over 32768 and encoded over 32767.

use vstd::prelude::*;
use az::WrappingCast;
use crate::single::Single;

verus! {

/// The encoding of `128.0`, the weight of the high byte of a channel.
pub const HIGH_BYTE_SCALE: u32 = 0x4300_0000;

/// The encoding of `32768.0`, the weight of the low byte of a channel.
pub const LOW_BYTE_SCALE: u32 = 0x4700_0000;

/// The encoding of `32767.0`, the largest level.
pub const FULL_LEVEL: u32 = 0x46ff_fe00;

/// The high byte of a channel read as a signed number.
pub open spec fn signed_value(byte: u8) -> int {
    if byte < 128 {
        byte as int
    } else {
        byte - 256
    }
}

/// The sample that the two bytes of one channel decode to: the signed high
/// byte over 128, plus the low byte over 32768.
#[verifier::opaque]
pub open spec fn decoded_channel(byte0: u8, byte1: u8) -> Single {
    Single::of_signed(signed_value(byte1)).quotient(Single { bits: HIGH_BYTE_SCALE }).sum(
        Single::of_integer(byte0 as nat).quotient(Single { bits: LOW_BYTE_SCALE }),
    )
}

/// The level that a sample encodes to: the sample limited to the range from
/// minus one to one, times 32767, the fraction dropped.
#[verifier::opaque]
pub open spec fn encoded_level(sample: Single) -> int {
    sample.clamped().product(Single { bits: FULL_LEVEL }).saturated_signed(32767)
}

/// The two bytes of a level, low byte first, in two's complement.
pub open spec fn level_bytes(level: int) -> (u8, u8) {
    let word = if level < 0 {
        level + 0x1_0000
    } else {
        level
    };
    ((word % 256) as u8, (word / 256) as u8)
}

/// The stereo sample that the group of four bytes at `index` decodes to.
pub open spec fn decoded_sample(bytes: Seq<u8>, index: int) -> (Single, Single) {
    (
        decoded_channel(bytes[4 * index], bytes[4 * index + 1]),
        decoded_channel(bytes[4 * index + 2], bytes[4 * index + 3]),
    )
}

/// The stereo samples that a byte stream decodes to. Bytes after the last
/// full group of four are not read.
pub open spec fn decoded(bytes: Seq<u8>) -> Seq<(Single, Single)> {
    Seq::new((bytes.len() / 4) as nat, |index: int| decoded_sample(bytes, index))
}

/// The byte at `position` of the stream that `samples` encode to.
pub open spec fn encoded_byte(samples: Seq<(Single, Single)>, position: int) -> u8 {
    let sample = samples[position / 4];
    let channel = if position % 4 < 2 {
        sample.0
    } else {
        sample.1
    };
    let bytes = level_bytes(encoded_level(channel));
    if position % 2 == 0 {
        bytes.0
    } else {
        bytes.1
    }
}

/// The byte stream that stereo samples encode to.
pub open spec fn encoded(samples: Seq<(Single, Single)>) -> Seq<u8> {
    Seq::new(4 * samples.len(), |position: int| encoded_byte(samples, position))
}

/// Reads a byte as a signed number with `az`'s `WrappingCast::wrapping_cast`
/// from `u8` to `i8`, which keeps the bit pattern: a byte from 128 up comes
/// back lowered by 256.
#[verifier::external_body]
fn signed_byte(byte: u8) -> (signed: i8)
    ensures
        signed == signed_value(byte),
{
    WrappingCast::<i8>::wrapping_cast(byte)
}

/// Decodes the two bytes of one channel.
pub fn pcm_sample_to_float(byte0: u8, byte1: u8) -> (sample: Single)
    ensures
        sample == decoded_channel(byte0, byte1),
{
    reveal(decoded_channel);
    let high: i8 = signed_byte(byte1);
    let coarse: Single = Single::from_i16(high as i16).divided_by(
        Single::from_bits(HIGH_BYTE_SCALE),
    );
    let fine: Single = Single::from_usize(byte0 as usize).divided_by(
        Single::from_bits(LOW_BYTE_SCALE),
    );
    coarse.plus(fine)
}

/// Encodes one channel of a sample as two bytes, low byte first.
pub fn float_sample_to_pcm(sample: Single) -> (bytes: (u8, u8))
    ensures
        bytes == level_bytes(encoded_level(sample)),
{
    reveal(encoded_level);
    let level: i16 = sample.clamp_unit().times(Single::from_bits(FULL_LEVEL)).to_i16();
    let word: u32 = if level < 0 {
        (level as i32 + 0x1_0000) as u32
    } else {
        level as u32
    };
    ((word % 256) as u8, (word / 256) as u8)
}

/// Decodes a byte stream into stereo samples.
pub fn decode(bytes: &Vec<u8>) -> (samples: Vec<(Single, Single)>)
    ensures
        samples@ == decoded(bytes@),
{
    let count: usize = bytes.len() / 4;
    let mut samples: Vec<(Single, Single)> = Vec::new();
    let mut index: usize = 0;
    while index < count
        invariant
            count == bytes.len() / 4,
            index <= count,
            samples.len() == index,
            forall|i: int| 0 <= i < index ==> samples[i] == #[trigger] decoded_sample(bytes@, i),
        decreases count - index,
    {
        let left: Single = pcm_sample_to_float(bytes[index * 4], bytes[index * 4 + 1]);
        let right: Single = pcm_sample_to_float(bytes[index * 4 + 2], bytes[index * 4 + 3]);
        samples.push((left, right));
        index = index + 1;
    }
    assert(samples@ =~= decoded(bytes@));
    samples
}

/// The four bytes of the stream that belong to the sample at `index`.
pub proof fn lemma_encoded_group(samples: Seq<(Single, Single)>, index: int)
    requires
        0 <= index < samples.len(),
    ensures
        encoded_byte(samples, 4 * index) == level_bytes(encoded_level(samples[index].0)).0,
        encoded_byte(samples, 4 * index + 1) == level_bytes(encoded_level(samples[index].0)).1,
        encoded_byte(samples, 4 * index + 2) == level_bytes(encoded_level(samples[index].1)).0,
        encoded_byte(samples, 4 * index + 3) == level_bytes(encoded_level(samples[index].1)).1,
{
    assert((4 * index) / 4 == index && (4 * index) % 4 == 0 && (4 * index) % 2 == 0);
    assert((4 * index + 1) / 4 == index && (4 * index + 1) % 4 == 1 && (4 * index + 1) % 2 == 1);
    assert((4 * index + 2) / 4 == index && (4 * index + 2) % 4 == 2 && (4 * index + 2) % 2 == 0);
    assert((4 * index + 3) / 4 == index && (4 * index + 3) % 4 == 3 && (4 * index + 3) % 2 == 1);
}

/// Encodes stereo samples as a byte stream.
pub fn encode(samples: &Vec<(Single, Single)>) -> (bytes: Vec<u8>)
    ensures
        bytes@ == encoded(samples@),
{
    let mut bytes: Vec<u8> = Vec::new();
    let mut index: usize = 0;
    while index < samples.len()
        invariant
            index <= samples.len(),
            bytes.len() == 4 * index,
            forall|position: int|
                0 <= position < bytes.len() ==> bytes[position] == #[trigger] encoded_byte(
                    samples@,
                    position,
                ),
        decreases samples.len() - index,
    {
        let sample: (Single, Single) = samples[index];
        let left: (u8, u8) = float_sample_to_pcm(sample.0);
        let right: (u8, u8) = float_sample_to_pcm(sample.1);
        proof {
            lemma_encoded_group(samples@, index as int);
        }
        bytes.push(left.0);
        bytes.push(left.1);
        bytes.push(right.0);
        bytes.push(right.1);
        index = index + 1;
    }
    assert(bytes@ =~= encoded(samples@));
    bytes
}

} // verus!
