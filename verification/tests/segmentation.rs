//! Splitting recordings into utterances, and what is transcribed of them.

use listener::vad::{
    frames_for, noise_floor, segment, segment_voiced, Segment, DEFAULT_MIN_UTTERANCE_FRAMES,
    DEFAULT_MIN_UTTERANCE_SAMPLES, DEFAULT_SILENCE_FRAMES, FRAME_LEN,
};
use listener::whisper::{assemble, clip_logprob, clip_text, plan_clips, Clip, Transcript};

/// One frame after the other, with a counter of the silence so far.
fn frame_by_frame(voiced: &[bool], silence: usize, min: usize) -> Vec<(usize, usize)> {
    let mut out = Vec::new();
    let mut start: Option<usize> = None;
    let mut silent: usize = 0;
    for (i, v) in voiced.iter().enumerate() {
        if *v {
            if start.is_none() {
                start = Some(i);
            }
            silent = 0;
        } else if let Some(s) = start {
            silent += 1;
            if silent >= silence {
                let end = i - silent;
                if end - s >= min {
                    out.push((s * 480, end * 480));
                }
                start = None;
                silent = 0;
            }
        }
    }
    if let Some(s) = start {
        let end = voiced.len() - silent;
        if end - s >= min {
            out.push((s * 480, end * 480));
        }
    }
    out
}

fn pairs(segments: &[Segment]) -> Vec<(usize, usize)> {
    segments.iter().map(|s| (s.start_sample, s.end_sample)).collect()
}

#[test]
fn every_short_recording_is_split_frame_by_frame() {
    for len in 0..=11u32 {
        for bits in 0..(1u32 << len) {
            let voiced: Vec<bool> = (0..len).map(|i| bits & (1 << i) != 0).collect();
            for silence in 0..5usize {
                for min in 0..5usize {
                    let found = segment_voiced(&voiced, silence, min);
                    assert_eq!(pairs(&found), frame_by_frame(&voiced, silence, min));
                }
            }
        }
    }
}

#[test]
fn frame_constants_are_those_of_the_durations() {
    assert_eq!((16_000f32 * 0.030) as usize, FRAME_LEN);
    assert_eq!((1.2f32 / 0.030) as usize, DEFAULT_SILENCE_FRAMES);
    assert_eq!((0.8f32 * 16_000.0) as usize, DEFAULT_MIN_UTTERANCE_SAMPLES);
    assert_eq!((0.8f32 / 0.030).ceil() as usize, DEFAULT_MIN_UTTERANCE_FRAMES);
    assert_eq!(frames_for((0.8f32 * 16_000.0).round() as usize), DEFAULT_MIN_UTTERANCE_FRAMES);
    assert_eq!(frames_for((1.2f32 * 16_000.0).round() as usize), DEFAULT_SILENCE_FRAMES);
    for (samples, frames) in [(0, 0), (1, 1), (480, 1), (481, 2), (960, 2), (961, 3)] {
        assert_eq!(frames_for(samples), frames);
    }
}

#[test]
fn an_utterance_before_a_silence_ends_before_its_last_voiced_frame() {
    let mut voiced = vec![true; 30];
    voiced.extend(vec![false; 40]);
    assert_eq!(pairs(&segment_voiced(&voiced, 40, 26)), vec![(0, 29 * 480)]);
    let at_the_end = vec![true; 30];
    assert_eq!(pairs(&segment_voiced(&at_the_end, 40, 26)), vec![(0, 30 * 480)]);
}

#[test]
fn short_utterances_are_dropped() {
    let kept = |frames: usize| {
        let voiced = vec![true; frames];
        pairs(&segment_voiced(&voiced, DEFAULT_SILENCE_FRAMES, DEFAULT_MIN_UTTERANCE_FRAMES))
    };
    assert_eq!(kept(26), vec![]);
    assert_eq!(kept(27), vec![(0, 12_960)]);
    for frames in 0..60 {
        assert!(kept(frames).iter().all(|(a, b)| b - a >= DEFAULT_MIN_UTTERANCE_SAMPLES));
    }
}

#[test]
fn a_short_silence_does_not_split() {
    let mut voiced = vec![true; 30];
    voiced.extend(vec![false; 39]);
    voiced.extend(vec![true; 30]);
    assert_eq!(pairs(&segment_voiced(&voiced, 40, 26)), vec![(0, 99 * 480)]);
    let mut split = vec![true; 30];
    split.extend(vec![false; 40]);
    split.extend(vec![true; 30]);
    assert_eq!(pairs(&segment_voiced(&split, 40, 26)), vec![(0, 29 * 480), (70 * 480, 100 * 480)]);
}

#[test]
fn a_higher_minimum_only_drops_utterances() {
    let voiced: Vec<bool> = (0..400).map(|i| (i / 7) % 3 == 0 || i % 11 == 0).collect();
    let all = pairs(&segment_voiced(&voiced, 3, 0));
    let long: Vec<(usize, usize)> = all.iter().copied().filter(|(a, b)| b - a >= 6 * 480).collect();
    assert_eq!(pairs(&segment_voiced(&voiced, 3, 6)), long);
    assert!(!all.is_empty());
}

#[test]
fn levels_above_the_threshold_are_voiced() {
    let levels: Vec<u32> =
        [0.0f32, 0.02, 0.005, 0.0051, f32::INFINITY, f32::NAN, -f32::NAN].iter().map(|x| x.to_bits()).collect();
    let found = segment(&levels, 0.005f32.to_bits(), 1, 0);
    let voiced = vec![false, true, false, true, true, false, false];
    assert_eq!(pairs(&found), frame_by_frame(&voiced, 1, 0));
}

#[test]
fn the_noise_floor_is_the_tenth_percentile() {
    assert_eq!(noise_floor(&vec![]), None);
    let levels: Vec<u32> = (1..=25u32).rev().map(|i| (i as f32 / 100.0).to_bits()).collect();
    assert_eq!(noise_floor(&levels), Some(0.03f32.to_bits()));
    let few: Vec<u32> = [0.5f32, 0.25, 0.75].iter().map(|x| x.to_bits()).collect();
    assert_eq!(noise_floor(&few), Some(0.25f32.to_bits()));
    let mut turned = levels.clone();
    turned.reverse();
    assert_eq!(noise_floor(&turned), noise_floor(&levels));
    assert_eq!(noise_floor(&vec![f32::NAN.to_bits()]), Some(f32::NAN.to_bits()));
}

#[test]
fn clips_are_cut_at_the_end_of_the_recording() {
    let a = Segment { start_sample: 0, end_sample: 960 };
    let b = Segment { start_sample: 960, end_sample: 1440 };
    let c = Segment { start_sample: 1000, end_sample: 1440 };
    assert_eq!(
        plan_clips(&vec![a, b, c], 1000),
        vec![
            Clip { segment: a, from: 0, to: 960 },
            Clip { segment: b, from: 960, to: 1000 },
        ]
    );
    assert_eq!(plan_clips(&vec![], 5), vec![]);
}

#[test]
fn segments_of_a_recording_can_be_cut() {
    let n_samples: usize = 50 * 480 + 17;
    let voiced: Vec<bool> = (0..51).map(|i| i % 9 < 5).collect();
    let segments = segment_voiced(&voiced, 2, 1);
    assert!(segments.len() > 1);
    for clip in plan_clips(&segments, n_samples) {
        assert!(clip.from < clip.to && clip.to <= n_samples);
    }
}

#[test]
fn utterances_keep_the_position_of_their_segment() {
    let segment = Segment { start_sample: 960, end_sample: 1440 };
    let clips = vec![Clip { segment, from: 960, to: 1000 }];
    let transcripts =
        vec![Transcript { text: "hello".to_string(), avg_logprob: (-0.25f32).to_bits() }];
    let utterances = assemble(&clips, &transcripts);
    assert_eq!(utterances.len(), 1);
    assert_eq!(utterances[0].start_sample, 960);
    assert_eq!(utterances[0].end_sample, 1440);
    assert_eq!(utterances[0].text, "hello");
    assert_eq!(f32::from_bits(utterances[0].avg_logprob), -0.25);
}

#[test]
fn the_text_of_a_clip_is_joined_and_trimmed() {
    let parts = vec![" So I was".to_string(), " saying, ".to_string(), "\u{2003}".to_string()];
    assert_eq!(clip_text(&parts), "So I was saying,");
    assert_eq!(clip_text(&vec![]), "");
}

#[test]
fn a_clip_without_tokens_has_no_confidence() {
    assert_eq!(clip_logprob(3, (-0.25f32).to_bits()), (-0.25f32).to_bits());
    assert_eq!(clip_logprob(0, f32::NAN.to_bits()), f32::NEG_INFINITY.to_bits());
}
