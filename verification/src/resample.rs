//! Writing a range of one clip into another, at the same speed or resampled.

use vstd::prelude::*;
use crate::clip::{extended, Frame, MusicClip};
use crate::double::Double;
use crate::single::{Single, SINGLE_ONE};

verus! {

/// The stereo sample between `a` and `b` at the share `f` of the way.
pub open spec fn lerp(a: Frame, b: Frame, f: Single) -> Frame {
    (a.0.blend(b.0, f), a.1.blend(b.1, f))
}

/// Whether the pitch asks for no resampling: it is exactly one.
pub open spec fn is_unit(pitch: Single) -> bool {
    pitch.bits == SINGLE_ONE
}

/// The number of samples that are read: those between the two ends, but
/// never the last sample of the source nor anything behind it.
pub open spec fn source_span(length: nat, source_start: nat, source_end: nat) -> int {
    vstd::math::min(source_end - source_start, length - source_start - 1)
}

/// The number of samples that are written: as many as are read at unit
/// pitch, else that number over the pitch, the fraction dropped.
pub open spec fn target_span(span: nat, pitch: Single) -> nat {
    if is_unit(pitch) {
        span
    } else {
        Single::of_integer(span).quotient(pitch).saturated(usize::MAX as nat)
    }
}

/// Where in the source the sample for `offset` is read: the start plus
/// `offset` times the pitch, in single precision.
pub open spec fn source_position(source_start: nat, offset: nat, pitch: Single) -> Single {
    Single::of_integer(source_start).sum(Single::of_integer(offset).product(pitch))
}

/// The sample that is written at `offset`. At unit pitch it is the source's
/// sample, moved as it is. Else it lies between the two samples next to the
/// position, at the share that the position's fraction gives.
pub open spec fn resampled(source: Seq<Frame>, source_start: nat, offset: nat, pitch: Single) -> Frame {
    if is_unit(pitch) {
        source[(source_start + offset) as int]
    } else {
        let position = source_position(source_start, offset, pitch);
        lerp(
            source[position.saturated(usize::MAX as nat) as int],
            source[position.saturated_up(usize::MAX as nat) as int],
            position.fraction(),
        )
    }
}

/// Whether every position that is read lies within the source.
pub open spec fn readable(length: nat, source_start: nat, count: nat, pitch: Single) -> bool {
    is_unit(pitch) || forall|offset: nat|
        offset < count ==> (#[trigger] source_position(source_start, offset, pitch)).saturated_up(
            usize::MAX as nat,
        ) < length
}

/// The buffer after `count` resampled samples were written from
/// `target_start` on, the buffer grown with silence where it was shorter.
pub open spec fn written(
    target: Seq<Frame>,
    target_start: nat,
    count: nat,
    source: Seq<Frame>,
    source_start: nat,
    pitch: Single,
) -> Seq<Frame> {
    Seq::new(
        extended(target, target_start + count).len(),
        |i: int|
            if target_start <= i < target_start + count {
                resampled(source, source_start, (i - target_start) as nat, pitch)
            } else {
                extended(target, target_start + count)[i]
            },
    )
}

/// Blends two stereo samples, channel by channel.
pub fn lerp_samples(a: Frame, b: Frame, f: Single) -> (frame: Frame)
    ensures
        frame == lerp(a, b, f),
{
    (a.0.blended(b.0, f), a.1.blended(b.1, f))
}

/// Computes the number of samples to write for a number of samples to read.
pub fn target_span_of(span: usize, pitch: Single) -> (count: usize)
    ensures
        count == target_span(span as nat, pitch),
{
    if pitch.bits == SINGLE_ONE {
        span
    } else {
        Single::from_usize(span).divided_by(pitch).to_usize()
    }
}

/// Computes where in the source the sample for `offset` is read.
pub fn source_position_of(source_start: usize, offset: usize, pitch: Single) -> (position: Single)
    ensures
        position == source_position(source_start as nat, offset as nat, pitch),
{
    Single::from_usize(source_start).plus(Single::from_usize(offset).times(pitch))
}

/// Tells whether every position that is read lies within the source.
pub fn check_readable(length: usize, source_start: usize, count: usize, pitch: Single) -> (ok: bool)
    ensures
        ok == readable(length as nat, source_start as nat, count as nat, pitch),
{
    if pitch.bits == SINGLE_ONE {
        return true;
    }
    let mut offset: usize = 0;
    while offset < count
        invariant
            offset <= count,
            !is_unit(pitch),
            forall|earlier: nat|
                earlier < offset ==> (#[trigger] source_position(
                    source_start as nat,
                    earlier,
                    pitch,
                )).saturated_up(usize::MAX as nat) < length,
        decreases count - offset,
    {
        let high: usize = source_position_of(source_start, offset, pitch).to_usize_up();
        if high >= length {
            proof {
                let witness = offset as nat;
                let position = source_position(source_start as nat, witness, pitch);
                assert(position.saturated_up(usize::MAX as nat) >= length as nat);
                if readable(length as nat, source_start as nat, count as nat, pitch) {
                    assert(witness < count as nat);
                    assert(position.saturated_up(usize::MAX as nat) < length as nat);
                }
            }
            return false;
        }
        offset = offset + 1;
    }
    true
}

impl MusicClip {
    /// What `write_sample` asks of its arguments: the source range starts
    /// within the source and does not end before it starts, the target range
    /// can be addressed, and every position that is read lies within the
    /// source.
    pub open spec fn can_write_sample(
        &self,
        target_start: Double,
        source: &MusicClip,
        source_start: Double,
        source_end: Double,
        pitch: Single,
    ) -> bool {
        let from = source.sample_at(source_start);
        let to = source.sample_at(source_end);
        let length = source.audio_data.len() as nat;
        &&& 0 <= from <= to <= usize::MAX
        &&& from < length
        &&& ({
            let count = target_span(source_span(length, from as nat, to as nat) as nat, pitch);
            &&& 0 <= self.sample_at(target_start)
            &&& self.sample_at(target_start) + count <= usize::MAX
            &&& readable(length, from as nat, count, pitch)
        })
    }

    /// The buffer that `write_sample` leaves.
    pub open spec fn after_write_sample(
        &self,
        target_start: Double,
        source: &MusicClip,
        source_start: Double,
        source_end: Double,
        pitch: Single,
    ) -> Seq<Frame> {
        let from = source.sample_at(source_start) as nat;
        let to = source.sample_at(source_end) as nat;
        let length = source.audio_data.len() as nat;
        written(
            self.audio_data@,
            self.sample_at(target_start) as nat,
            target_span(source_span(length, from, to) as nat, pitch),
            source.audio_data@,
            from,
            pitch,
        )
    }

    /// Writes the samples of `source` from `source_start` up to `source_end`
    /// into this clip from `target_start` on, growing it where it ends
    /// before the last sample written. The source is read at `pitch` samples
    /// per sample written; at a pitch of exactly one its samples are moved
    /// as they are.
    pub fn write_sample(
        &mut self,
        target_start: Double,
        source: &MusicClip,
        source_start: Double,
        source_end: Double,
        pitch: Single,
    )
        requires
            old(self).can_write_sample(target_start, source, source_start, source_end, pitch),
        ensures
            final(self).audio_data@ == old(self).after_write_sample(
                target_start,
                source,
                source_start,
                source_end,
                pitch,
            ),
            final(self).audio_stream == old(self).audio_stream,
            final(self).audio_stream_dirty,
            final(self).same_grid(old(self)),
    {
        let target_from: usize = self.beat_to_sample(target_start);
        let from: usize = source.beat_to_sample(source_start);
        let to: usize = source.beat_to_sample(source_end);
        let length: usize = source.audio_data.len();
        let between: usize = to - from;
        let rest: usize = length - from - 1;
        let span: usize = if between < rest {
            between
        } else {
            rest
        };
        let count: usize = target_span_of(span, pitch);
        let target_to: usize = target_from + count;
        self.grow_to(target_to);
        let ghost grown = self.audio_data@;
        let unit: bool = pitch.bits == SINGLE_ONE;
        let mut offset: usize = 0;
        while offset < count
            invariant
                offset <= count,
                target_to == target_from + count,
                target_to <= grown.len(),
                self.audio_data.len() == grown.len(),
                length == source.audio_data.len(),
                unit == is_unit(pitch),
                unit ==> from + count < length,
                readable(length as nat, from as nat, count as nat, pitch),
                self.audio_stream == old(self).audio_stream,
                self.same_grid(old(self)),
                forall|i: int|
                    0 <= i < grown.len() ==> self.audio_data[i] == (if target_from <= i
                        < target_from + offset {
                        resampled(source.audio_data@, from as nat, (i - target_from) as nat, pitch)
                    } else {
                        grown[i]
                    }),
            decreases count - offset,
        {
            let frame: Frame = if unit {
                source.audio_data[from + offset]
            } else {
                let position: Single = source_position_of(from, offset, pitch);
                let low: usize = position.to_usize();
                let high: usize = position.to_usize_up();
                assert(source_position(from as nat, offset as nat, pitch).saturated_up(
                    usize::MAX as nat,
                ) < length);
                lerp_samples(source.audio_data[low], source.audio_data[high], position.fraction_of())
            };
            self.audio_data[target_from + offset] = frame;
            offset = offset + 1;
        }
        self.audio_stream_dirty = true;
        assert(self.audio_data@ =~= old(self).after_write_sample(
            target_start,
            source,
            source_start,
            source_end,
            pitch,
        ));
    }

    /// Does what `write_sample` does where its arguments allow it, and tells
    /// whether they did. Where they do not, the clip stays as it is.
    pub fn try_write_sample(
        &mut self,
        target_start: Double,
        source: &MusicClip,
        source_start: Double,
        source_end: Double,
        pitch: Single,
    ) -> (done: bool)
        ensures
            done == old(self).can_write_sample(
                target_start,
                source,
                source_start,
                source_end,
                pitch,
            ),
            final(self).audio_data@ == (if done {
                old(self).after_write_sample(target_start, source, source_start, source_end, pitch)
            } else {
                old(self).audio_data@
            }),
            final(self).audio_stream == old(self).audio_stream,
            final(self).audio_stream_dirty == (done || old(self).audio_stream_dirty),
            final(self).same_grid(old(self)),
    {
        let length: usize = source.audio_data.len();
        let from: usize = match source.checked_beat_to_sample(source_start) {
            Some(sample) => sample,
            None => {
                return false;
            },
        };
        let to: usize = match source.checked_beat_to_sample(source_end) {
            Some(sample) => sample,
            None => {
                return false;
            },
        };
        if from > to || from >= length {
            return false;
        }
        let target_from: usize = match self.checked_beat_to_sample(target_start) {
            Some(sample) => sample,
            None => {
                return false;
            },
        };
        let between: usize = to - from;
        let rest: usize = length - from - 1;
        let span: usize = if between < rest {
            between
        } else {
            rest
        };
        let count: usize = target_span_of(span, pitch);
        if count > usize::MAX - target_from {
            return false;
        }
        if !check_readable(length, from, count, pitch) {
            return false;
        }
        self.write_sample(target_start, source, source_start, source_end, pitch);
        true
    }
}

} // verus!
