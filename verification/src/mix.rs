//! Mixing: adding other clips into a clip over a range of beats.

use vstd::prelude::*;
use crate::clip::{extended, Frame, MusicClip};
use crate::double::Double;

verus! {

/// The sum of two stereo samples, channel by channel.
pub open spec fn frame_sum(a: Frame, b: Frame) -> Frame {
    (a.0.sum(b.0), a.1.sum(b.1))
}

/// The sample at `index` after the first `count` of `sources` were added to
/// `base`, one after the other. A source adds its own sample at `index`
/// where `index` lies from `start` up to `end` and within the source.
pub open spec fn mixed(
    base: Frame,
    sources: Seq<MusicClip>,
    count: nat,
    index: int,
    start: int,
    end: int,
) -> Frame
    decreases count,
{
    if count == 0 {
        base
    } else {
        let before = mixed(base, sources, (count - 1) as nat, index, start, end);
        let source = sources[count - 1].audio_data@;
        if start <= index < end && index < source.len() {
            frame_sum(before, source[index])
        } else {
            before
        }
    }
}

/// The buffer that mixing `sources` into `target` from `start` up to `end`
/// gives: `target` is grown to `end` first, then every source is added.
pub open spec fn mixed_down(target: Seq<Frame>, sources: Seq<MusicClip>, start: nat, end: nat) -> Seq<
    Frame,
> {
    Seq::new(
        extended(target, end).len(),
        |index: int|
            mixed(
                extended(target, end)[index],
                sources,
                sources.len(),
                index,
                start as int,
                end as int,
            ),
    )
}

/// Whether all clips have the tempo of the first.
pub open spec fn same_tempo(sources: Seq<MusicClip>) -> bool {
    forall|k: int|
        0 <= k < sources.len() ==> (#[trigger] sources[k]).samples_per_beat
            == sources[0].samples_per_beat
}

/// Tells whether all clips have the tempo of the first.
pub fn check_same_tempo(sources: &Vec<MusicClip>) -> (same: bool)
    ensures
        same == same_tempo(sources@),
{
    let mut k: usize = 0;
    while k < sources.len()
        invariant
            k <= sources.len(),
            forall|j: int|
                0 <= j < k ==> (#[trigger] sources[j]).samples_per_beat
                    == sources[0].samples_per_beat,
        decreases sources.len() - k,
    {
        if sources[k].samples_per_beat != sources[0].samples_per_beat {
            return false;
        }
        k = k + 1;
    }
    true
}

impl MusicClip {
    /// Adds the samples of every source to the samples of this clip, from
    /// `start` up to `end` and as far as the source reaches. The clip is
    /// grown to `end` first. Nothing is averaged or limited.
    pub fn mixdown(&mut self, sources: &Vec<MusicClip>, start: Double, end: Double)
        requires
            sources.len() > 0,
            same_tempo(sources@),
            0 <= old(self).sample_at(start) <= usize::MAX,
            0 <= old(self).sample_at(end) <= usize::MAX,
        ensures
            final(self).audio_data@ == mixed_down(
                old(self).audio_data@,
                sources@,
                old(self).sample_at(start) as nat,
                old(self).sample_at(end) as nat,
            ),
            final(self).audio_stream == old(self).audio_stream,
            final(self).audio_stream_dirty,
            final(self).same_grid(old(self)),
    {
        self.extend(end);
        let start_sample: usize = self.beat_to_sample(start);
        let end_sample: usize = self.beat_to_sample(end);
        let ghost base = self.audio_data@;
        let mut k: usize = 0;
        while k < sources.len()
            invariant
                k <= sources.len(),
                end_sample <= base.len(),
                self.audio_data.len() == base.len(),
                self.audio_stream == old(self).audio_stream,
                self.same_grid(old(self)),
                forall|i: int|
                    0 <= i < base.len() ==> self.audio_data[i] == mixed(
                        base[i],
                        sources@,
                        k as nat,
                        i,
                        start_sample as int,
                        end_sample as int,
                    ),
            decreases sources.len() - k,
        {
            let source: &MusicClip = &sources[k];
            let stop: usize = if end_sample < source.audio_data.len() {
                end_sample
            } else {
                source.audio_data.len()
            };
            let mut index: usize = start_sample;
            while index < stop
                invariant
                    k < sources.len(),
                    source == sources[k as int],
                    stop <= end_sample <= base.len(),
                    stop <= source.audio_data.len(),
                    stop == end_sample || stop == source.audio_data.len(),
                    start_sample <= index,
                    self.audio_data.len() == base.len(),
                    self.audio_stream == old(self).audio_stream,
                    self.same_grid(old(self)),
                    forall|i: int|
                        0 <= i < base.len() ==> self.audio_data[i] == mixed(
                            base[i],
                            sources@,
                            (if start_sample <= i < index {
                                k + 1
                            } else {
                                k as int
                            }) as nat,
                            i,
                            start_sample as int,
                            end_sample as int,
                        ),
                decreases stop - index,
            {
                let addend: Frame = source.audio_data[index];
                let current: Frame = self.audio_data[index];
                self.audio_data[index] = (current.0.plus(addend.0), current.1.plus(addend.1));
                index = index + 1;
            }
            k = k + 1;
        }
        self.audio_stream_dirty = true;
        assert(self.audio_data@ =~= mixed_down(
            old(self).audio_data@,
            sources@,
            start_sample as nat,
            end_sample as nat,
        ));
    }
}

} // verus!
