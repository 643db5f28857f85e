//! Transcription: which clips of a recording are transcribed, and the utterances
//! that come of them.

use crate::text;
use crate::vad;
use vstd::prelude::*;

verus! {

/// One transcribed utterance. The sample positions are those of its segment;
/// the mean log-probability of its tokens, a cheap measure of confidence, is
/// given by the bits of a single-precision number.
#[derive(Debug, Clone, PartialEq, Eq)]
pub struct Utterance {
    pub start_sample: usize,
    pub end_sample: usize,
    pub text: String,
    pub avg_logprob: u32,
}

/// A segment and the samples `from..to` of it that exist.
#[derive(Debug, Clone, Copy, PartialEq, Eq, Structural)]
pub struct Clip {
    pub segment: vad::Segment,
    pub from: usize,
    pub to: usize,
}

/// What a clip was transcribed to.
#[derive(Debug, PartialEq, Eq)]
pub struct Transcript {
    pub text: String,
    pub avg_logprob: u32,
}

/// Where a segment ends in a recording of `n_samples` samples.
pub open spec fn cut(segment: vad::Segment, n_samples: usize) -> usize {
    if segment.end_sample <= n_samples {
        segment.end_sample
    } else {
        n_samples
    }
}

/// Whether a segment is a range of the samples of a recording, once it is cut at
/// the recording's end.
pub open spec fn is_clippable(segment: vad::Segment, n_samples: usize) -> bool {
    segment.start_sample <= cut(segment, n_samples)
}

/// The clips of `segments` that are not empty, in order.
pub open spec fn clips_of(segments: Seq<vad::Segment>, n_samples: usize) -> Seq<Clip>
    decreases segments.len(),
{
    if segments.len() == 0 {
        Seq::empty()
    } else {
        let before = clips_of(segments.drop_last(), n_samples);
        let segment = segments.last();
        if segment.start_sample == cut(segment, n_samples) {
            before
        } else {
            before.push(Clip { segment, from: segment.start_sample, to: cut(segment, n_samples) })
        }
    }
}

/// The clips of a recording that are to be transcribed.
pub fn plan_clips(segments: &Vec<vad::Segment>, n_samples: usize) -> (clips: Vec<Clip>)
    requires
        forall|i: int| 0 <= i < segments@.len() ==> is_clippable(#[trigger] segments@[i], n_samples),
    ensures
        clips@ == clips_of(segments@, n_samples),
{
    let mut out: Vec<Clip> = Vec::new();
    let mut i: usize = 0;
    assert(segments@.take(0) =~= Seq::<vad::Segment>::empty());
    while i < segments.len()
        invariant
            i <= segments@.len(),
            out@ == clips_of(segments@.take(i as int), n_samples),
        decreases segments@.len() - i,
    {
        let segment = segments[i];
        let to: usize = if segment.end_sample <= n_samples {
            segment.end_sample
        } else {
            n_samples
        };
        assert(segments@.take(i + 1).drop_last() =~= segments@.take(i as int));
        if segment.start_sample != to {
            out.push(Clip { segment, from: segment.start_sample, to });
        }
        i += 1;
    }
    assert(segments@.take(i as int) =~= segments@);
    out
}

/// Whether `u` is what clip and transcript make up.
pub open spec fn is_utterance_of(u: Utterance, clip: Clip, transcript: Transcript) -> bool {
    &&& u.start_sample == clip.segment.start_sample
    &&& u.end_sample == clip.segment.end_sample
    &&& u.text@ == transcript.text@
    &&& u.avg_logprob == transcript.avg_logprob
}

/// The utterances that the transcripts of the clips make up. Each keeps the
/// position of its segment.
pub fn assemble(clips: &Vec<Clip>, transcripts: &Vec<Transcript>) -> (utterances: Vec<Utterance>)
    requires
        clips@.len() == transcripts@.len(),
    ensures
        utterances@.len() == clips@.len(),
        forall|i: int|
            0 <= i < clips@.len() ==> is_utterance_of(
                #[trigger] utterances@[i],
                clips@[i],
                transcripts@[i],
            ),
        forall|i: int|
            0 <= i < clips@.len() ==> {
                let u = #[trigger] utterances@[i];
                &&& u.start_sample == clips@[i].segment.start_sample
                &&& u.end_sample == clips@[i].segment.end_sample
                &&& u.text@ == transcripts@[i].text@
                &&& u.avg_logprob == transcripts@[i].avg_logprob
            },
{
    let mut out: Vec<Utterance> = Vec::new();
    let mut i: usize = 0;
    while i < clips.len()
        invariant
            i <= clips@.len(),
            clips@.len() == transcripts@.len(),
            out@.len() == i,
            forall|j: int|
                0 <= j < i ==> is_utterance_of(#[trigger] out@[j], clips@[j], transcripts@[j]),
        decreases clips@.len() - i,
    {
        out.push(
            Utterance {
                start_sample: clips[i].segment.start_sample,
                end_sample: clips[i].segment.end_sample,
                text: transcripts[i].text.clone(),
                avg_logprob: transcripts[i].avg_logprob,
            },
        );
        i += 1;
    }
    out
}

/// The bits of the log-probability of a clip in which nothing was recognised:
/// negative infinity.
pub const NO_LOGPROB: u32 = 0xff80_0000;

/// The log-probability of a clip, by its bits: the mean over its tokens, where it
/// has any.
pub fn clip_logprob(n_tokens: u32, mean: u32) -> (bits: u32)
    ensures
        bits == if n_tokens > 0 {
            mean
        } else {
            NO_LOGPROB
        },
        n_tokens > 0 ==> bits == mean,
        n_tokens == 0 ==> bits == 0xff80_0000u32,
{
    if n_tokens > 0 {
        mean
    } else {
        NO_LOGPROB
    }
}

/// The text of a clip: what was recognised, part after part, without white space
/// at either end.
pub fn clip_text(parts: &Vec<String>) -> (t: String)
    ensures
        t@ == text::trimmed(text::concatenated(text::texts(parts@))),
{
    let ghost all = text::texts(parts@);
    let mut whole = String::new();
    let mut i: usize = 0;
    assert(all.take(0) =~= Seq::<Seq<char>>::empty());
    while i < parts.len()
        invariant
            i <= parts@.len(),
            all == text::texts(parts@),
            whole@ == text::concatenated(all.take(i as int)),
        decreases parts@.len() - i,
    {
        whole.append(&parts[i]);
        assert(all.take(i + 1).drop_last() =~= all.take(i as int));
        assert(all.take(i + 1).last() == parts@[i as int]@);
        i += 1;
    }
    assert(all.take(i as int) =~= all);
    text::trim(&whole)
}

/// Every clip holds a sample and lies within the recording.
pub proof fn law_clips_lie_within(segments: Seq<vad::Segment>, n_samples: usize)
    requires
        forall|i: int| 0 <= i < segments.len() ==> is_clippable(#[trigger] segments[i], n_samples),
    ensures
        forall|k: int|
            0 <= k < clips_of(segments, n_samples).len() ==> {
                let clip = #[trigger] clips_of(segments, n_samples)[k];
                clip.from < clip.to <= n_samples && segments.contains(clip.segment)
            },
    decreases segments.len(),
{
    if segments.len() > 0 {
        let front = segments.drop_last();
        assert forall|i: int| 0 <= i < front.len() implies is_clippable(
            #[trigger] front[i],
            n_samples,
        ) by {
            assert(front[i] == segments[i]);
        }
        law_clips_lie_within(front, n_samples);
        assert(is_clippable(segments[segments.len() - 1], n_samples));
        let before = clips_of(front, n_samples);
        let all = clips_of(segments, n_samples);
        assert forall|k: int| 0 <= k < all.len() implies {
            let clip = #[trigger] all[k];
            clip.from < clip.to <= n_samples && segments.contains(clip.segment)
        } by {
            if k < before.len() {
                assert(all[k] == before[k]);
                let at = choose|at: int| 0 <= at < front.len() && front[at] == before[k].segment;
                assert(segments[at] == all[k].segment);
            } else {
                assert(segments[segments.len() - 1] == all[k].segment);
            }
        }
    }
}

/// The segments of a recording can be cut out of that recording.
pub proof fn law_segments_are_clippable(
    segments: Seq<vad::Segment>,
    voiced: Seq<bool>,
    gap: int,
    min: int,
    n_samples: usize,
)
    requires
        gap >= 1,
        voiced.len() == vad::frame_count(n_samples as int),
        vad::ranges(segments) == vad::segments_of(vad::utterances(voiced, gap, min, 0)),
    ensures
        forall|i: int| 0 <= i < segments.len() ==> is_clippable(#[trigger] segments[i], n_samples),
{
    let list = vad::utterances(voiced, gap, min, 0);
    assert forall|i: int| 0 <= i < segments.len() implies is_clippable(
        #[trigger] segments[i],
        n_samples,
    ) by {
        assert(vad::ranges(segments).len() == segments.len());
        assert(vad::segments_of(list).len() == list.len());
        vad::law_segments_can_be_cut(voiced, gap, min, n_samples as int, i);
        assert(vad::ranges(segments)[i] == vad::segments_of(list)[i]);
    }
}

/// Each segment that has a sample in the recording is transcribed as a whole, and
/// once: the clips are, in the order of the segments, the part of each from its
/// start to its end, or to the end of the recording where that comes first.
pub proof fn law_clips_are_whole_segments(
    segments: Seq<vad::Segment>,
    n_samples: usize,
    clips: Seq<Clip>,
)
    requires
        forall|i: int|
            0 <= i < segments.len() ==> (#[trigger] segments[i]).start_sample
                <= segments[i].end_sample && segments[i].start_sample <= n_samples,
        clips == clips_of(segments, n_samples),
    ensures
        clips == segments.filter(
            |s: vad::Segment| s.start_sample < s.end_sample && s.start_sample < n_samples,
        ).map_values(
            |s: vad::Segment|
                Clip {
                    segment: s,
                    from: s.start_sample,
                    to: if s.end_sample < n_samples {
                        s.end_sample
                    } else {
                        n_samples
                    },
                },
        ),
    decreases segments.len(),
{
    reveal(Seq::filter);
    let some = |s: vad::Segment| s.start_sample < s.end_sample && s.start_sample < n_samples;
    let whole = |s: vad::Segment|
        Clip {
            segment: s,
            from: s.start_sample,
            to: if s.end_sample < n_samples {
                s.end_sample
            } else {
                n_samples
            },
        };
    if segments.len() > 0 {
        let front = segments.drop_last();
        assert forall|i: int| 0 <= i < front.len() implies (#[trigger] front[i]).start_sample
            <= front[i].end_sample && front[i].start_sample <= n_samples by {
            assert(front[i] == segments[i]);
        }
        law_clips_are_whole_segments(front, n_samples, clips_of(front, n_samples));
        let last = segments[segments.len() - 1];
        assert(last == segments.last());
        if some(last) {
            assert(segments.filter(some).map_values(whole) =~= front.filter(some).map_values(
                whole,
            ).push(whole(last)));
        }
    }
    assert(clips =~= segments.filter(some).map_values(whole));
}

/// The text of a clip is all that was recognised, part after part, but for white
/// space at either end.
pub proof fn law_clip_text_is_all_that_was_said(parts: Seq<String>, t: Seq<char>)
    requires
        t == text::trimmed(text::concatenated(text::texts(parts))),
    ensures
        exists|before: Seq<char>, after: Seq<char>|
            {
                &&& parts.map_values(|p: String| p@).flatten() == #[trigger] (before + t + after)
                &&& forall|i: int| 0 <= i < before.len() ==> text::is_white_space(#[trigger] before[i])
                &&& forall|i: int| 0 <= i < after.len() ==> text::is_white_space(#[trigger] after[i])
            },
        t.len() > 0 ==> !text::is_white_space(t[0]) && !text::is_white_space(t.last()),
{
    let all = text::texts(parts);
    assert(all =~= parts.map_values(|p: String| p@));
    text::law_concatenated(all);
    text::law_trimmed(text::concatenated(all));
}

} // verus!
