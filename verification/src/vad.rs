//! Voice-activity segmentation over frames of audio.
//!
//! A frame is [`FRAME_LEN`] samples, the last one possibly shorter. Each frame
//! has a level, its root mean square, given by the bits of a single-precision
//! number that is not negative: for such numbers the order of the bits, read as
//! integers, is the order of the values.
//!
//! A run of voiced frames goes on over silence that is too short to split it.
//! Silence of the minimum length ends it just before its last voiced frame; a
//! run that the end of the recording cuts short keeps its last voiced frame.

use crate::order;
use vstd::prelude::*;

verus! {

/// Samples in a frame: 30 ms at 16 kHz.
pub const FRAME_LEN: usize = 480;

/// Frames of silence that split utterances by default: 1.2 s.
pub const DEFAULT_SILENCE_FRAMES: usize = 40;

/// The shortest utterance, in samples, that is kept by default: 0.8 s. Anything
/// shorter is likely a breath or a click.
pub const DEFAULT_MIN_UTTERANCE_SAMPLES: usize = 12_800;

/// Frames that an utterance needs to be kept by default: the fewest that last
/// 0.8 s.
pub const DEFAULT_MIN_UTTERANCE_FRAMES: usize = 27;

/// A stretch of samples that holds one utterance.
#[derive(Debug, Clone, Copy, PartialEq, Eq, Structural)]
pub struct Segment {
    pub start_sample: usize,
    pub end_sample: usize,
}

// ---------------------------------------------------------------------------
// What the utterances of a recording are
// ---------------------------------------------------------------------------

/// The silence, in frames, that splits utterances: one frame at least.
pub open spec fn gap_of(silence_frames: nat) -> int {
    if silence_frames == 0 {
        1
    } else {
        silence_frames as int
    }
}

/// The first voiced frame at or after `from`, or the number of frames.
pub open spec fn next_voiced(voiced: Seq<bool>, from: int) -> int
    decreases voiced.len() - from,
{
    if from >= voiced.len() {
        voiced.len() as int
    } else if voiced[from] {
        from
    } else {
        next_voiced(voiced, from + 1)
    }
}

/// The last voiced frame of the utterance that goes on at the voiced frame `at`:
/// it goes on as long as fewer than `gap` silent frames part it from the next
/// voiced one.
pub open spec fn last_voiced(voiced: Seq<bool>, gap: int, at: int) -> int
    decreases voiced.len() - at,
    via last_voiced_decreases
{
    let next = next_voiced(voiced, at + 1);
    if 0 <= at && next < voiced.len() && next - at <= gap {
        last_voiced(voiced, gap, next)
    } else {
        at
    }
}

#[via_fn]
proof fn last_voiced_decreases(voiced: Seq<bool>, gap: int, at: int) {
    if 0 <= at && at + 1 <= voiced.len() {
        lemma_next_voiced(voiced, at + 1);
    }
}

/// The end, exclusive, of the utterance whose last voiced frame is `last`.
pub open spec fn end_of(voiced: Seq<bool>, gap: int, last: int) -> int {
    if last + gap < voiced.len() {
        last
    } else {
        last + 1
    }
}

/// The utterances that start at or after `from` and are at least `min` frames
/// long, each as its first frame and its end, in order.
pub open spec fn utterances(voiced: Seq<bool>, gap: int, min: int, from: int) -> Seq<(int, int)>
    decreases voiced.len() - from,
    via utterances_decreases
{
    let start = next_voiced(voiced, from);
    if from < 0 || start >= voiced.len() {
        Seq::empty()
    } else {
        let last = last_voiced(voiced, gap, start);
        let end = end_of(voiced, gap, last);
        let rest = utterances(voiced, gap, min, last + 1);
        if end - start >= min {
            seq![(start, end)] + rest
        } else {
            rest
        }
    }
}

#[via_fn]
proof fn utterances_decreases(voiced: Seq<bool>, gap: int, min: int, from: int) {
    if 0 <= from <= voiced.len() {
        lemma_next_voiced(voiced, from);
        let start = next_voiced(voiced, from);
        if start < voiced.len() {
            lemma_last_voiced(voiced, gap, start);
        }
    }
}

/// The sample ranges of a list of frame ranges.
pub open spec fn segments_of(list: Seq<(int, int)>) -> Seq<(int, int)> {
    list.map_values(|u: (int, int)| (u.0 * FRAME_LEN, u.1 * FRAME_LEN))
}

/// The sample ranges that `segments` holds.
pub open spec fn ranges(segments: Seq<Segment>) -> Seq<(int, int)> {
    segments.map_values(|s: Segment| (s.start_sample as int, s.end_sample as int))
}

/// Whether bits are those of a level: a single-precision number that is not
/// negative.
pub open spec fn is_level(bits: u32) -> bool {
    bits <= 0x7f80_0000
}

/// Which frames are voiced: those whose level is above `threshold`. A frame whose
/// level is not a number is not voiced.
pub open spec fn voiced_frames(levels: Seq<u32>, threshold: u32) -> Seq<bool> {
    levels.map_values(|level: u32| is_level(level) && level > threshold)
}

proof fn lemma_next_voiced(voiced: Seq<bool>, from: int)
    requires
        0 <= from <= voiced.len(),
    ensures
        from <= next_voiced(voiced, from) <= voiced.len(),
        next_voiced(voiced, from) < voiced.len() ==> voiced[next_voiced(voiced, from)],
        forall|i: int| from <= i < next_voiced(voiced, from) ==> !#[trigger] voiced[i],
    decreases voiced.len() - from,
{
    if from < voiced.len() && !voiced[from] {
        lemma_next_voiced(voiced, from + 1);
    }
}

/// Silent frames can be skipped.
proof fn lemma_next_voiced_skip(voiced: Seq<bool>, from: int, to: int)
    requires
        0 <= from <= to <= voiced.len(),
        forall|i: int| from <= i < to ==> !#[trigger] voiced[i],
    ensures
        next_voiced(voiced, from) == next_voiced(voiced, to),
    decreases to - from,
{
    if from < to {
        assert(!voiced[from]);
        lemma_next_voiced_skip(voiced, from + 1, to);
    }
}

proof fn lemma_utterances_skip(voiced: Seq<bool>, gap: int, min: int, from: int, to: int)
    requires
        0 <= from <= to <= voiced.len(),
        forall|i: int| from <= i < to ==> !#[trigger] voiced[i],
    ensures
        utterances(voiced, gap, min, from) == utterances(voiced, gap, min, to),
{
    lemma_next_voiced_skip(voiced, from, to);
}

proof fn lemma_last_voiced(voiced: Seq<bool>, gap: int, at: int)
    requires
        0 <= at < voiced.len(),
        voiced[at],
    ensures
        at <= last_voiced(voiced, gap, at) < voiced.len(),
        voiced[last_voiced(voiced, gap, at)],
        ({
            let next = next_voiced(voiced, last_voiced(voiced, gap, at) + 1);
            next == voiced.len() || next - last_voiced(voiced, gap, at) > gap
        }),
    decreases voiced.len() - at,
{
    lemma_next_voiced(voiced, at + 1);
    let next = next_voiced(voiced, at + 1);
    if next < voiced.len() && next - at <= gap {
        lemma_last_voiced(voiced, gap, next);
    }
}

// ---------------------------------------------------------------------------
// Segmentation
// ---------------------------------------------------------------------------

/// Splits frames into the utterances that are long enough. `voiced` tells which
/// frames hold voice; `silence_frames` silent frames end an utterance.
pub fn segment_voiced(
    voiced: &Vec<bool>,
    silence_frames: usize,
    min_utterance_frames: usize,
) -> (segments: Vec<Segment>)
    requires
        voiced@.len() * FRAME_LEN <= usize::MAX,
    ensures
        ranges(segments@) == segments_of(
            utterances(voiced@, gap_of(silence_frames as nat), min_utterance_frames as int, 0),
        ),
{
    let ghost v = voiced@;
    let ghost gap = gap_of(silence_frames as nat);
    let ghost min = min_utterance_frames as int;
    let ghost all = utterances(v, gap, min, 0);
    let ghost mut done: Seq<(int, int)> = Seq::empty();
    let mut segments: Vec<Segment> = Vec::new();
    let mut cur_start: Option<usize> = None;
    let mut trailing_silence: usize = 0;
    let mut i: usize = 0;
    assert(done + utterances(v, gap, min, 0) =~= all);
    assert(ranges(segments@) =~= segments_of(done));
    while i < voiced.len()
        invariant
            i <= v.len(),
            v == voiced@,
            gap == gap_of(silence_frames as nat),
            min == min_utterance_frames,
            v.len() * FRAME_LEN <= usize::MAX,
            ranges(segments@) == segments_of(done),
            cur_start is None ==> done + utterances(v, gap, min, i as int) == all,
            cur_start matches Some(start) ==> {
                let last = i - 1 - trailing_silence;
                &&& start <= last
                &&& v[start as int]
                &&& v[last]
                &&& trailing_silence < gap
                &&& forall|k: int| last < k < i ==> !#[trigger] v[k]
                &&& last_voiced(v, gap, start as int) == last_voiced(v, gap, last)
                &&& done + utterances(v, gap, min, start as int) == all
            },
        decreases v.len() - i,
    {
        match cur_start {
            None => {
                if voiced[i] {
                    cur_start = Some(i);
                    trailing_silence = 0;
                } else {
                    proof {
                        lemma_utterances_skip(v, gap, min, i as int, i + 1);
                    }
                }
            },
            Some(start) => {
                let ghost last = i - 1 - trailing_silence;
                if voiced[i] {
                    proof {
                        lemma_next_voiced_skip(v, last + 1, i as int);
                    }
                    trailing_silence = 0;
                } else {
                    trailing_silence += 1;
                    if trailing_silence >= silence_frames {
                        let end: usize = i - trailing_silence;
                        proof {
                            assert(end == last);
                            lemma_next_voiced_skip(v, last + 1, i + 1);
                            lemma_next_voiced(v, i + 1);
                            assert(last_voiced(v, gap, last) == last);
                            assert(end_of(v, gap, last) == end);
                            lemma_utterances_skip(v, gap, min, last + 1, i + 1);
                            lemma_push(done, start as int, end as int, utterances(v, gap, min, i + 1));
                        }
                        if end - start >= min_utterance_frames {
                            proof {
                                lemma_in_range(start as int, v.len() as int);
                                lemma_in_range(end as int, v.len() as int);
                            }
                            let found = Segment {
                                start_sample: start * FRAME_LEN,
                                end_sample: end * FRAME_LEN,
                            };
                            proof {
                                lemma_keep(segments@, found, done, start as int, end as int);
                                done = done.push((start as int, end as int));
                            }
                            segments.push(found);
                        }
                        cur_start = None;
                        trailing_silence = 0;
                    }
                }
            },
        }
        i += 1;
    }
    if let Some(start) = cur_start {
        let end: usize = voiced.len() - trailing_silence;
        let ghost last = end - 1;
        proof {
            lemma_next_voiced_skip(v, last + 1, v.len() as int);
            assert(last_voiced(v, gap, last) == last);
            assert(end_of(v, gap, last) == end);
            lemma_utterances_skip(v, gap, min, last + 1, v.len() as int);
            lemma_push(done, start as int, end as int, utterances(v, gap, min, v.len() as int));
            assert(done + Seq::<(int, int)>::empty() =~= done);
        }
        if end - start >= min_utterance_frames {
            proof {
                lemma_in_range(start as int, v.len() as int);
                lemma_in_range(end as int, v.len() as int);
            }
            let found = Segment { start_sample: start * FRAME_LEN, end_sample: end * FRAME_LEN };
            proof {
                lemma_keep(segments@, found, done, start as int, end as int);
                done = done.push((start as int, end as int));
                assert(done + Seq::<(int, int)>::empty() =~= done);
            }
            segments.push(found);
        }
    } else {
        assert(done + Seq::<(int, int)>::empty() =~= done);
    }
    segments
}

proof fn lemma_push(done: Seq<(int, int)>, start: int, end: int, rest: Seq<(int, int)>)
    ensures
        done + (seq![(start, end)] + rest) == done.push((start, end)) + rest,
{
    assert(done + (seq![(start, end)] + rest) =~= done.push((start, end)) + rest);
}

proof fn lemma_keep(
    segments: Seq<Segment>,
    found: Segment,
    done: Seq<(int, int)>,
    start: int,
    end: int,
)
    requires
        ranges(segments) == segments_of(done),
        found.start_sample == start * FRAME_LEN,
        found.end_sample == end * FRAME_LEN,
    ensures
        ranges(segments.push(found)) == segments_of(done.push((start, end))),
{
    assert(ranges(segments.push(found)) =~= ranges(segments).push(
        (found.start_sample as int, found.end_sample as int),
    ));
    assert(segments_of(done.push((start, end))) =~= segments_of(done).push(
        (start * FRAME_LEN, end * FRAME_LEN),
    ));
}

proof fn lemma_in_range(frame: int, frames: int)
    requires
        0 <= frame <= frames,
        frames * FRAME_LEN <= usize::MAX,
    ensures
        0 <= frame * FRAME_LEN <= usize::MAX,
{
}

/// Splits a recording into the utterances that are long enough: its frames
/// louder than `threshold` are voiced.
pub fn segment(
    levels: &Vec<u32>,
    threshold: u32,
    silence_frames: usize,
    min_utterance_frames: usize,
) -> (segments: Vec<Segment>)
    requires
        levels@.len() * FRAME_LEN <= usize::MAX,
    ensures
        ranges(segments@) == segments_of(
            utterances(
                voiced_frames(levels@, threshold),
                gap_of(silence_frames as nat),
                min_utterance_frames as int,
                0,
            ),
        ),
{
    let mut voiced: Vec<bool> = Vec::new();
    let mut i: usize = 0;
    while i < levels.len()
        invariant
            i <= levels@.len(),
            voiced@ == voiced_frames(levels@.take(i as int), threshold),
        decreases levels@.len() - i,
    {
        voiced.push(levels[i] <= 0x7f80_0000 && levels[i] > threshold);
        i += 1;
        assert(voiced@ =~= voiced_frames(levels@.take(i as int), threshold));
    }
    assert(levels@.take(i as int) =~= levels@);
    segment_voiced(&voiced, silence_frames, min_utterance_frames)
}

/// The noise floor of a recording: the tenth percentile of its frames' levels.
/// A recording without frames has none. Several levels have to be numbers, so
/// that they have an order.
pub fn noise_floor(levels: &Vec<u32>) -> (floor: Option<u32>)
    requires
        levels@.len() > 1 ==> forall|i: int|
            0 <= i < levels@.len() ==> is_level(#[trigger] levels@[i]),
    ensures
        floor is None <==> levels@.len() == 0,
        floor matches Some(level) ==> order::is_kth_smallest(
            levels@,
            levels@.len() as int / 10,
            level,
        ),
{
    if levels.len() == 0 {
        None
    } else {
        Some(order::kth_smallest(levels, levels.len() / 10))
    }
}

/// The number of frames that `n_samples` samples make.
pub open spec fn frame_count(n_samples: int) -> int {
    (n_samples + FRAME_LEN - 1) / FRAME_LEN as int
}

/// The fewest frames that last as long as `n_samples` samples.
pub fn frames_for(n_samples: usize) -> (frames: usize)
    ensures
        frames == frame_count(n_samples as int),
        frames * 480 >= n_samples,
        (frames - 1) * 480 < n_samples,
{
    if n_samples == 0 {
        0
    } else {
        (n_samples - 1) / FRAME_LEN + 1
    }
}

// ---------------------------------------------------------------------------
// Laws
// ---------------------------------------------------------------------------

/// Every utterance starts with a voiced frame, lies within the recording and is
/// at least as long as asked for.
pub proof fn law_utterances_are_sound(voiced: Seq<bool>, gap: int, min: int, from: int)
    requires
        0 <= from <= voiced.len(),
        gap >= 1,
    ensures
        forall|k: int|
            0 <= k < utterances(voiced, gap, min, from).len() ==> {
                let u = #[trigger] utterances(voiced, gap, min, from)[k];
                &&& from <= u.0 < voiced.len()
                &&& voiced[u.0]
                &&& u.0 <= u.1 <= voiced.len()
                &&& u.1 - u.0 >= min
            },
    decreases voiced.len() - from,
{
    lemma_next_voiced(voiced, from);
    let start = next_voiced(voiced, from);
    if start < voiced.len() {
        lemma_last_voiced(voiced, gap, start);
        let last = last_voiced(voiced, gap, start);
        law_utterances_are_sound(voiced, gap, min, last + 1);
        let rest = utterances(voiced, gap, min, last + 1);
        let all = utterances(voiced, gap, min, from);
        assert forall|k: int| 0 <= k < all.len() implies {
            let u = #[trigger] all[k];
            &&& from <= u.0 < voiced.len()
            &&& voiced[u.0]
            &&& u.0 <= u.1 <= voiced.len()
            &&& u.1 - u.0 >= min
        } by {
            if all.len() > rest.len() && k > 0 {
                assert(all[k] == rest[k - 1]);
            } else if all.len() == rest.len() {
                assert(all[k] == rest[k]);
            }
        }
    }
}

/// Utterances come in order, and more than the splitting silence lies between
/// the end of one and the start of a later one.
pub proof fn law_utterances_are_apart(voiced: Seq<bool>, gap: int, min: int, from: int)
    requires
        0 <= from <= voiced.len(),
        gap >= 1,
    ensures
        forall|i: int, j: int|
            0 <= i < j < utterances(voiced, gap, min, from).len() ==> (#[trigger] utterances(
                voiced,
                gap,
                min,
                from,
            )[j]).0 - (#[trigger] utterances(voiced, gap, min, from)[i]).1 > gap,
    decreases voiced.len() - from,
{
    lemma_next_voiced(voiced, from);
    let start = next_voiced(voiced, from);
    if start < voiced.len() {
        lemma_last_voiced(voiced, gap, start);
        let last = last_voiced(voiced, gap, start);
        let next = next_voiced(voiced, last + 1);
        let rest = utterances(voiced, gap, min, last + 1);
        let all = utterances(voiced, gap, min, from);
        law_utterances_are_apart(voiced, gap, min, last + 1);
        lemma_next_voiced(voiced, last + 1);
        if next < voiced.len() {
            lemma_utterances_skip(voiced, gap, min, last + 1, next);
            law_utterances_are_sound(voiced, gap, min, next);
        }
        assert forall|i: int, j: int| 0 <= i < j < all.len() implies (#[trigger] all[j]).0 - (
        #[trigger] all[i]).1 > gap by {
            if all.len() > rest.len() {
                assert(all[j] == rest[j - 1]);
                if i > 0 {
                    assert(all[i] == rest[i - 1]);
                }
            } else {
                assert(all[i] == rest[i] && all[j] == rest[j]);
            }
        }
    }
}

/// With no minimum length every voiced frame lies in an utterance, or is the
/// frame at which it was ended.
pub proof fn law_voice_is_covered(voiced: Seq<bool>, gap: int, from: int, frame: int)
    requires
        0 <= from <= frame < voiced.len(),
        gap >= 1,
        voiced[frame],
    ensures
        exists|k: int|
            0 <= k < utterances(voiced, gap, 0, from).len() && (#[trigger] utterances(
                voiced,
                gap,
                0,
                from,
            )[k]).0 <= frame <= utterances(voiced, gap, 0, from)[k].1,
    decreases voiced.len() - from,
{
    lemma_next_voiced(voiced, from);
    let start = next_voiced(voiced, from);
    lemma_last_voiced(voiced, gap, start);
    let last = last_voiced(voiced, gap, start);
    let all = utterances(voiced, gap, 0, from);
    if frame <= last {
        assert(all[0].0 <= frame <= all[0].1);
    } else {
        law_voice_is_covered(voiced, gap, last + 1, frame);
        let rest = utterances(voiced, gap, 0, last + 1);
        let k = choose|k: int|
            0 <= k < rest.len() && (#[trigger] rest[k]).0 <= frame <= rest[k].1;
        assert(all[k + 1] == rest[k]);
    }
}

proof fn lemma_no_long_silence(voiced: Seq<bool>, gap: int, at: int, a: int)
    requires
        0 <= at <= a,
        at < voiced.len(),
        voiced[at],
        gap >= 1,
        a + gap <= last_voiced(voiced, gap, at) + 1,
    ensures
        exists|f: int| a <= f < a + gap && #[trigger] voiced[f],
    decreases voiced.len() - at,
{
    lemma_next_voiced(voiced, at + 1);
    let next = next_voiced(voiced, at + 1);
    if a == at {
        assert(voiced[a]);
    } else if a <= next {
        assert(voiced[next]);
    } else {
        lemma_no_long_silence(voiced, gap, next, a);
    }
}

/// No utterance holds a silence that would have split it.
pub proof fn law_no_splitting_silence_inside(
    voiced: Seq<bool>,
    gap: int,
    min: int,
    from: int,
    k: int,
    a: int,
)
    requires
        0 <= from <= voiced.len(),
        gap >= 1,
        0 <= k < utterances(voiced, gap, min, from).len(),
        utterances(voiced, gap, min, from)[k].0 <= a,
        a + gap <= utterances(voiced, gap, min, from)[k].1,
    ensures
        exists|f: int| a <= f < a + gap && #[trigger] voiced[f],
    decreases voiced.len() - from,
{
    lemma_next_voiced(voiced, from);
    let start = next_voiced(voiced, from);
    if start < voiced.len() {
        lemma_last_voiced(voiced, gap, start);
        let last = last_voiced(voiced, gap, start);
        let rest = utterances(voiced, gap, min, last + 1);
        let all = utterances(voiced, gap, min, from);
        if all.len() > rest.len() && k == 0 {
            lemma_no_long_silence(voiced, gap, start, a);
        } else {
            let kept = all.len() - rest.len();
            assert(all[k] == rest[k - kept]);
            law_no_splitting_silence_inside(voiced, gap, min, last + 1, k - kept, a);
        }
    }
}

/// A minimum length drops the shorter utterances and changes no other.
pub proof fn law_minimum_only_drops(voiced: Seq<bool>, gap: int, min: int, from: int)
    requires
        0 <= from <= voiced.len(),
        gap >= 1,
    ensures
        utterances(voiced, gap, min, from) == utterances(voiced, gap, 0, from).filter(
            |u: (int, int)| u.1 - u.0 >= min,
        ),
    decreases voiced.len() - from,
{
    let long = |u: (int, int)| u.1 - u.0 >= min;
    lemma_next_voiced(voiced, from);
    let start = next_voiced(voiced, from);
    if start < voiced.len() {
        lemma_last_voiced(voiced, gap, start);
        let last = last_voiced(voiced, gap, start);
        let first = (start, end_of(voiced, gap, last));
        law_minimum_only_drops(voiced, gap, min, last + 1);
        let rest = utterances(voiced, gap, 0, last + 1);
        Seq::filter_distributes_over_add(seq![first], rest, long);
        reveal_with_fuel(Seq::filter, 2);
        assert(seq![first].drop_last() =~= Seq::<(int, int)>::empty());
        assert(seq![first].filter(long) =~= if long(first) {
            seq![first]
        } else {
            Seq::empty()
        });
        assert(Seq::<(int, int)>::empty() + rest.filter(long) =~= rest.filter(long));
    } else {
        reveal_with_fuel(Seq::filter, 1);
    }
}

/// A segment of a recording starts before the recording's last sample, and ends
/// less than one frame after it: cut at the last sample, it is a valid range.
pub proof fn law_segments_can_be_cut(
    voiced: Seq<bool>,
    gap: int,
    min: int,
    n_samples: int,
    k: int,
)
    requires
        gap >= 1,
        n_samples >= 0,
        voiced.len() == frame_count(n_samples),
        0 <= k < utterances(voiced, gap, min, 0).len(),
    ensures
        segments_of(utterances(voiced, gap, min, 0))[k].0 < n_samples,
        segments_of(utterances(voiced, gap, min, 0))[k].1 < n_samples + FRAME_LEN,
        segments_of(utterances(voiced, gap, min, 0))[k].0 <= segments_of(
            utterances(voiced, gap, min, 0),
        )[k].1,
{
    law_utterances_are_sound(voiced, gap, min, 0);
    let u = utterances(voiced, gap, min, 0)[k];
    assert(u.0 <= u.1 <= frame_count(n_samples));
}

/// Where the minimum is the fewest frames that last a given number of samples,
/// every segment that is kept lasts at least that long.
pub proof fn law_segments_last(
    segments: Seq<Segment>,
    voiced: Seq<bool>,
    gap: int,
    min_samples: int,
    k: int,
)
    requires
        gap >= 1,
        min_samples >= 0,
        ranges(segments) == segments_of(utterances(voiced, gap, frame_count(min_samples), 0)),
        0 <= k < segments.len(),
    ensures
        segments[k].end_sample - segments[k].start_sample >= min_samples,
{
    let all = utterances(voiced, gap, frame_count(min_samples), 0);
    law_utterances_are_sound(voiced, gap, frame_count(min_samples), 0);
    assert(ranges(segments).len() == all.len());
    let u = all[k];
    assert(ranges(segments)[k] == (u.0 * FRAME_LEN, u.1 * FRAME_LEN));
    assert(ranges(segments)[k] == (
        segments[k].start_sample as int,
        segments[k].end_sample as int,
    ));
}

/// The default minimum is the smallest number of whole frames that lasts as long
/// as the shortest utterance that is kept, and what it keeps lasts at least that
/// long.
pub proof fn law_default_segments_last(segments: Seq<Segment>, voiced: Seq<bool>, k: int)
    requires
        ranges(segments) == segments_of(
            utterances(
                voiced,
                gap_of(DEFAULT_SILENCE_FRAMES as nat),
                DEFAULT_MIN_UTTERANCE_FRAMES as int,
                0,
            ),
        ),
        0 <= k < segments.len(),
    ensures
        DEFAULT_MIN_UTTERANCE_FRAMES == frame_count(DEFAULT_MIN_UTTERANCE_SAMPLES as int),
        segments[k].end_sample - segments[k].start_sample >= DEFAULT_MIN_UTTERANCE_SAMPLES,
{
    law_segments_last(
        segments,
        voiced,
        gap_of(DEFAULT_SILENCE_FRAMES as nat),
        DEFAULT_MIN_UTTERANCE_SAMPLES as int,
        k,
    );
}

/// The order of the frames does not matter for the noise floor.
pub proof fn law_noise_floor_ignores_order(a: Seq<u32>, b: Seq<u32>, x: u32, y: u32)
    requires
        a.to_multiset() == b.to_multiset(),
        order::is_kth_smallest(a, a.len() as int / 10, x),
        order::is_kth_smallest(b, b.len() as int / 10, y),
    ensures
        x == y,
{
    broadcast use vstd::seq_lib::group_to_multiset_ensures;

    assert(a.len() == a.to_multiset().len() == b.len());
    order::law_rank_ignores_order(a, b, a.len() as int / 10, x, y);
}

/// Whether the frames from `first` to `last` are one run of voice: it starts and
/// ends with voice, holds no silence that would split it, and such a silence, or
/// an end of the recording, lies on either side.
spec fn is_run(voiced: Seq<bool>, gap: int, first: int, last: int) -> bool {
    &&& 0 <= first <= last < voiced.len()
    &&& voiced[first] && voiced[last]
    &&& forall|j: int| first - gap <= j < first && 0 <= j ==> !#[trigger] voiced[j]
    &&& forall|a: int|
                first <= a && a + gap <= last ==> (#[trigger] voiced.subrange(a, a + gap)).contains(true)
    &&& forall|j: int| last < j <= last + gap && j < voiced.len() ==> !#[trigger] voiced[j]
}

spec fn is_settled(voiced: Seq<bool>, gap: int, from: int) -> bool {
    forall|j: int|
        0 <= j < from && #[trigger] voiced[j] ==> next_voiced(voiced, from) == voiced.len()
            || next_voiced(voiced, from) - j > gap
}

proof fn lemma_first_run(voiced: Seq<bool>, gap: int, from: int)
    requires
        0 <= from <= voiced.len(),
        gap >= 1,
        is_settled(voiced, gap, from),
        next_voiced(voiced, from) < voiced.len(),
    ensures
        is_run(
            voiced,
            gap,
            next_voiced(voiced, from),
            last_voiced(voiced, gap, next_voiced(voiced, from)),
        ),
        is_settled(voiced, gap, last_voiced(voiced, gap, next_voiced(voiced, from)) + 1),
{
    let first = next_voiced(voiced, from);
    lemma_next_voiced(voiced, from);
    lemma_last_voiced(voiced, gap, first);
    let last = last_voiced(voiced, gap, first);
    lemma_next_voiced(voiced, last + 1);
    assert forall|a: int| first <= a && a + gap <= last implies (#[trigger] voiced.subrange(
        a,
        a + gap,
    )).contains(true) by {
        lemma_no_long_silence(voiced, gap, first, a);
        let f = choose|f: int| a <= f < a + gap && #[trigger] voiced[f];
        assert(voiced.subrange(a, a + gap)[f - a]);
    }
}

proof fn lemma_utterance_is_run(voiced: Seq<bool>, gap: int, min: int, from: int, k: int) -> (last:
    int)
    requires
        0 <= from <= voiced.len(),
        gap >= 1,
        is_settled(voiced, gap, from),
        0 <= k < utterances(voiced, gap, min, from).len(),
    ensures
        is_run(voiced, gap, utterances(voiced, gap, min, from)[k].0, last),
        utterances(voiced, gap, min, from)[k].1 == end_of(voiced, gap, last),
        utterances(voiced, gap, min, from)[k].1 - utterances(voiced, gap, min, from)[k].0 >= min,
    decreases voiced.len() - from,
{
    lemma_next_voiced(voiced, from);
    let first = next_voiced(voiced, from);
    lemma_last_voiced(voiced, gap, first);
    let last = last_voiced(voiced, gap, first);
    lemma_first_run(voiced, gap, from);
    let rest = utterances(voiced, gap, min, last + 1);
    let all = utterances(voiced, gap, min, from);
    if all.len() > rest.len() && k == 0 {
        last
    } else {
        let kept = all.len() - rest.len();
        assert(all[k] == rest[k - kept]);
        lemma_utterance_is_run(voiced, gap, min, last + 1, k - kept)
    }
}

proof fn lemma_run_is_utterance(
    voiced: Seq<bool>,
    gap: int,
    min: int,
    from: int,
    first: int,
    last: int,
) -> (k: int)
    requires
        0 <= from <= first,
        gap >= 1,
        is_settled(voiced, gap, from),
        is_run(voiced, gap, first, last),
        end_of(voiced, gap, last) - first >= min,
    ensures
        0 <= k < utterances(voiced, gap, min, from).len(),
        utterances(voiced, gap, min, from)[k] == (first, end_of(voiced, gap, last)),
    decreases voiced.len() - from,
{
    lemma_next_voiced(voiced, from);
    let start = next_voiced(voiced, from);
    lemma_last_voiced(voiced, gap, start);
    let end = last_voiced(voiced, gap, start);
    lemma_first_run(voiced, gap, from);
    lemma_next_voiced(voiced, end + 1);
    let rest = utterances(voiced, gap, min, end + 1);
    let all = utterances(voiced, gap, min, from);
    if start == first {
        if end < last {
            let a = end + 1;
            assert(voiced.subrange(a, a + gap).contains(true));
            let window = voiced.subrange(a, a + gap);
            let i = choose|i: int| 0 <= i < window.len() && #[trigger] window[i] == true;
            assert(voiced[a + i]);
        }
        if end > last {
            lemma_no_long_silence(voiced, gap, start, last + 1);
        }
        assert(all[0] == (first, end_of(voiced, gap, last)));
        0
    } else {
        if first <= end {
            if first - gap >= start {
                lemma_no_long_silence(voiced, gap, start, first - gap);
            }
        }
        let k = lemma_run_is_utterance(voiced, gap, min, end + 1, first, last);
        let kept = all.len() - rest.len();
        assert(all[k + kept] == rest[k]);
        k + kept
    }
}

/// Every segment is one run of voice, from its first voiced frame on: a splitting
/// silence, or the beginning, lies before it, none lies inside, and one, or the
/// end of the recording, follows its last voiced frame. Where the silence
/// follows, the segment ends with the frame before the last voiced one; where
/// the recording ends first, with the last voiced one. Silence after the run
/// never counts, neither for the end nor for the minimum length.
pub proof fn law_segment_is_a_run_of_voice(
    segments: Seq<Segment>,
    voiced: Seq<bool>,
    silence_frames: usize,
    min_utterance_frames: usize,
    gap: int,
    k: int,
)
    requires
        ranges(segments) == segments_of(
            utterances(voiced, gap_of(silence_frames as nat), min_utterance_frames as int, 0),
        ),
        gap == silence_frames || (silence_frames == 0 && gap == 1),
        gap >= 1,
        0 <= k < segments.len(),
    ensures
        exists|first: int, last: int|
            {
                &&& 0 <= first <= last < voiced.len()
                &&& #[trigger] voiced[first] && #[trigger] voiced[last]
                &&& forall|j: int| first - gap <= j < first && 0 <= j ==> !#[trigger] voiced[j]
                &&& forall|a: int|
                    first <= a && a + gap <= last ==> (#[trigger] voiced.subrange(
                        a,
                        a + gap,
                    )).contains(true)
                &&& forall|j: int|
                    last < j <= last + gap && j < voiced.len() ==> !#[trigger] voiced[j]
                &&& segments[k].start_sample == first * 480
                &&& segments[k].end_sample == if last + gap < voiced.len() {
                    last * 480
                } else {
                    (last + 1) * 480
                }
                &&& segments[k].end_sample - segments[k].start_sample >= min_utterance_frames * 480
            },
{
    let min = min_utterance_frames as int;
    let all = utterances(voiced, gap, min, 0);
    assert(ranges(segments).len() == all.len());
    let last = lemma_utterance_is_run(voiced, gap, min, 0, k);
    let first = all[k].0;
    assert(ranges(segments)[k] == segments_of(all)[k]);
    assert(voiced[first] && voiced[last]);
}

/// No run of voice that is long enough is lost: a stretch of frames that starts
/// and ends with voice, holds no splitting silence and has one, or an end of the
/// recording, on either side is a segment.
pub proof fn law_run_of_voice_is_a_segment(
    segments: Seq<Segment>,
    voiced: Seq<bool>,
    silence_frames: usize,
    min_utterance_frames: usize,
    gap: int,
    first: int,
    last: int,
)
    requires
        ranges(segments) == segments_of(
            utterances(voiced, gap_of(silence_frames as nat), min_utterance_frames as int, 0),
        ),
        gap == silence_frames || (silence_frames == 0 && gap == 1),
        gap >= 1,
        0 <= first <= last < voiced.len(),
        voiced[first] && voiced[last],
        forall|j: int| first - gap <= j < first && 0 <= j ==> !#[trigger] voiced[j],
        forall|a: int|
            first <= a && a + gap <= last ==> (#[trigger] voiced.subrange(a, a + gap)).contains(
                true,
            ),
        forall|j: int| last < j <= last + gap && j < voiced.len() ==> !#[trigger] voiced[j],
        last + gap < voiced.len() ==> last - first >= min_utterance_frames,
        last + gap >= voiced.len() ==> last + 1 - first >= min_utterance_frames,
    ensures
        exists|k: int|
            0 <= k < segments.len() && (#[trigger] segments[k]).start_sample == first * 480
                && segments[k].end_sample == if last + gap < voiced.len() {
                last * 480
            } else {
                (last + 1) * 480
            },
{
    let min = min_utterance_frames as int;
    let all = utterances(voiced, gap, min, 0);
    assert(ranges(segments).len() == all.len());
    let k = lemma_run_is_utterance(voiced, gap, min, 0, first, last);
    assert(ranges(segments)[k] == segments_of(all)[k]);
    assert(segments[k].start_sample == first * 480);
}

/// Segments come in the order of the recording and do not touch: a splitting
/// silence lies between any two.
pub proof fn law_segments_come_in_order(
    segments: Seq<Segment>,
    voiced: Seq<bool>,
    silence_frames: usize,
    min_utterance_frames: usize,
    i: int,
    j: int,
)
    requires
        ranges(segments) == segments_of(
            utterances(voiced, gap_of(silence_frames as nat), min_utterance_frames as int, 0),
        ),
        0 <= i < j < segments.len(),
    ensures
        segments[i].start_sample <= segments[i].end_sample,
        segments[j].start_sample - segments[i].end_sample > 480 * silence_frames,
        segments[j].start_sample - segments[i].end_sample > 480,
{
    let gap = gap_of(silence_frames as nat);
    let min = min_utterance_frames as int;
    let all = utterances(voiced, gap, min, 0);
    assert(ranges(segments).len() == all.len());
    law_utterances_are_sound(voiced, gap, min, 0);
    law_utterances_are_apart(voiced, gap, min, 0);
    assert(ranges(segments)[i] == segments_of(all)[i]);
    assert(ranges(segments)[j] == segments_of(all)[j]);
    assert(all[j].0 - all[i].1 > gap);
}

/// A frame is voiced exactly where its level is a number above the threshold.
pub proof fn law_voiced_frames_are_the_loud_ones(levels: Seq<u32>, threshold: u32)
    ensures
        voiced_frames(levels, threshold).len() == levels.len(),
        forall|i: int|
            0 <= i < levels.len() ==> (#[trigger] voiced_frames(levels, threshold)[i] <==> levels[i]
                <= 0x7f80_0000 && levels[i] > threshold),
{
}

} // verus!
