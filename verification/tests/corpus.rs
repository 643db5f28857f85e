//! Training pairs and the files that hold them.

use listener::audio::{
    after_read, needs_resampling, sample_scale, track_format, Next, Read, SampleFormat, Scale,
    TrackError, WHISPER_SR,
};
use listener::corpus::{
    auto_promote_ok, context_before, context_preview, group_pairs, hash, key_of, mean_divisor,
    message_of,
    present_logprobs, promote, review_sample, sample, utterances_to_pairs, TrainingPair,
};
use listener::jsonl::{read_jsonl, split_lines, write_jsonl, Records};
use listener::layout::{fresh_name, Layout};
use listener::whisper::Utterance;
use std::hash::{Hash, Hasher};
use std::io::BufRead;

fn utterance(text: &str, lp: f32) -> Utterance {
    Utterance { start_sample: 0, end_sample: 480, text: text.to_string(), avg_logprob: lp.to_bits() }
}

fn pair(matt: &str) -> TrainingPair {
    TrainingPair::captured("ctx".to_string(), matt.to_string(), "voice-solo", "now".to_string())
}

#[test]
fn hashes_have_known_values() {
    assert_eq!(hash("", ""), "6e340b9cffb37a989ca544e6bb780a2c78901d3fb33738768511a30617afa01d");
    assert_eq!(
        hash("yo", "hey there"),
        "115599ebe9c61eccecb30f010a5edcd499d0c9d0a43b9066ad8b62dc2f7e49df"
    );
    assert_eq!(
        hash("n\u{e9}", &"\u{e9}".repeat(300)),
        "484f53a255154f5080d4fcef94ba02ef607e5c9b8dc2b8a19b1deac8c9a07654"
    );
}

#[test]
fn only_the_beginning_of_the_context_is_hashed() {
    let long = "\u{e9}".repeat(256);
    assert_eq!(hash("m", &long), hash("m", &format!("{long} and more")));
    assert_ne!(hash("m", &long), hash("m", &"\u{e9}".repeat(255)));
    assert_eq!(message_of("m", &format!("{long}x")), [b"m\0", long.as_bytes()].concat());
}

#[test]
fn messages_tell_pairs_apart() {
    assert_ne!(message_of("ab", "c"), message_of("a", "bc"));
    assert_ne!(hash("ab", "c"), hash("a", "bc"));
    assert_eq!(message_of("a\0b", "c"), message_of("a", "b\0c"));
}

#[test]
fn a_new_pair_is_stamped() {
    let p = TrainingPair::new("before".to_string(), "said".to_string(), "voice-group");
    assert_eq!((p.context.as_str(), p.matt.as_str(), p.source.as_str()), ("before", "said", "voice-group"));
    assert_eq!(p.sha, hash("said", "before"));
    assert_eq!(p.avg_logprob, None);
    let stamp = p.captured_at.unwrap();
    let re = regex::Regex::new(
        r"^\d{4}-\d\d-\d\dT\d\d:\d\d:\d\d(\.\d{3}|\.\d{6}|\.\d{9})?\+00:00$",
    )
    .unwrap();
    assert!(re.is_match(&stamp), "{stamp}");
}

#[test]
fn pairs_come_with_the_utterances_before_them() {
    let utts = vec![
        utterance("one", -0.1),
        utterance("two", -0.2),
        utterance("three", -0.3),
        utterance("four", -0.4),
    ];
    let pairs = utterances_to_pairs(&utts, "voice-solo", 2);
    let contexts: Vec<&str> = pairs.iter().map(|p| p.context.as_str()).collect();
    assert_eq!(contexts, vec!["", "one", "one\ntwo", "two\nthree"]);
    let said: Vec<&str> = pairs.iter().map(|p| p.matt.as_str()).collect();
    assert_eq!(said, vec!["one", "two", "three", "four"]);
    assert_eq!(pairs[3].avg_logprob.map(f32::from_bits), Some(-0.4));
    assert_eq!(pairs[3].sha, hash("four", "two\nthree"));
    assert_eq!(pairs[3].source, "voice-solo");
    assert!(pairs.iter().all(|p| p.captured_at.is_some()));
    assert!(utterances_to_pairs(&utts, "s", 0).iter().all(|p| p.context.is_empty()));
    assert_eq!(context_before(&utts, 4, 100), "one\ntwo\nthree\nfour");
    assert_eq!(context_before(&utts[..2].to_vec(), 2, 2), context_before(&utts, 2, 2));
    assert_eq!(utterances_to_pairs(&vec![], "s", 2), vec![]);
}

#[test]
fn a_merge_adds_what_the_master_lacks() {
    let master = vec![pair("a"), pair("b")];
    let staging = vec![pair("b"), pair("c"), pair("a"), pair("d")];
    let new = promote(staging.clone(), &master);
    assert_eq!(new, vec![pair("c"), pair("d")]);
    let merged: Vec<TrainingPair> = master.iter().chain(new.iter()).cloned().collect();
    assert_eq!(promote(staging.clone(), &merged), vec![]);
    for p in &staging {
        assert!(merged.iter().any(|q| q.sha == p.sha));
    }
    assert_eq!(promote(staging.clone(), &vec![]), staging);
    assert_eq!(promote(vec![], &master), vec![]);
}

#[test]
fn a_merge_is_deduped_by_hash() {
    let with_sha = |sha: &str, matt: &str| {
        let mut p = pair(matt);
        p.sha = sha.to_string();
        p
    };
    let master = vec![with_sha("aa", "m")];
    let staging = vec![with_sha("bb", "first"), with_sha("bb", "second"), with_sha("aa", "third")];
    assert_eq!(promote(staging, &master), vec![with_sha("bb", "first")]);
    assert_eq!(promote(vec![pair("x"), pair("x")], &vec![]), vec![pair("x")]);
    assert_eq!(promote(vec![pair("x"), pair("x")], &vec![pair("x")]), vec![]);
}

#[test]
fn twenty_confident_pairs_may_be_promoted_at_once() {
    let pairs: Vec<TrainingPair> = (0..20).map(|i| pair(&i.to_string())).collect();
    let values = [
        0.0f32, -0.0, 1.0, -0.25, -0.49999997, -0.5, -0.50000006, -1.0, f32::NAN, -f32::NAN,
        f32::INFINITY, f32::NEG_INFINITY, f32::MIN_POSITIVE, -f32::MIN_POSITIVE, f32::MAX, f32::MIN,
    ];
    for v in values {
        assert_eq!(auto_promote_ok(&pairs, v.to_bits()), v > -0.5, "{v}");
        assert!(!auto_promote_ok(&pairs[..19].to_vec(), v.to_bits()));
    }
    let mut bits: u32 = 0;
    loop {
        assert_eq!(auto_promote_ok(&pairs, bits), f32::from_bits(bits) > -0.5);
        match bits.checked_add(65_521) {
            Some(b) => bits = b,
            None => break,
        }
    }
}

#[test]
fn missing_log_probabilities_are_left_out_of_the_sum() {
    let mut pairs = vec![pair("a"), pair("b"), pair("c")];
    pairs[0].avg_logprob = Some((-0.5f32).to_bits());
    pairs[2].avg_logprob = Some((-1.0f32).to_bits());
    assert_eq!(present_logprobs(&pairs), vec![(-0.5f32).to_bits(), (-1.0f32).to_bits()]);
    assert_eq!(mean_divisor(&pairs), 3);
    assert_eq!(mean_divisor(&vec![]), 1);
}

#[test]
fn a_sample_goes_by_the_hashes_of_the_pairs() {
    let pairs: Vec<TrainingPair> = (0..50).map(|i| pair(&(i % 30).to_string())).collect();
    let key = |p: &TrainingPair| {
        let mut h = std::collections::hash_map::DefaultHasher::new();
        p.sha.hash(&mut h);
        h.finish()
    };
    for p in &pairs {
        assert_eq!(key_of(&p.sha), key(p));
    }
    let mut expected: Vec<usize> = (0..pairs.len()).collect();
    expected.sort_by_key(|i| key(&pairs[*i]));
    assert_eq!(review_sample(&pairs, 10), expected[..10].to_vec());
    assert_eq!(review_sample(&pairs, 50), expected);
    assert_eq!(review_sample(&pairs, 500), expected);
    assert_eq!(review_sample(&pairs, 0), vec![]);
    assert_eq!(sample(&vec![5, 1, 5, 0], 3), vec![3, 1, 0]);
    let turned: Vec<TrainingPair> = pairs.iter().rev().cloned().collect();
    let shown = |list: &Vec<TrainingPair>| -> Vec<String> {
        review_sample(list, 12).iter().map(|i| list[*i].matt.clone()).collect()
    };
    assert_eq!(shown(&turned), shown(&pairs));
}

#[test]
fn a_preview_shows_eighty_characters() {
    let mut p = pair("m");
    p.context = "\u{e9}".repeat(100);
    assert_eq!(context_preview(&p), "\u{e9}".repeat(80));
    p.context = "short".to_string();
    assert_eq!(context_preview(&p), "short");
}

#[test]
fn lines_are_those_of_a_buffered_reader() {
    let alphabet = [b'a', b'\n', b'\r', 0xffu8, b' '];
    let mut files: Vec<Vec<u8>> = vec![vec![]];
    for _ in 0..6 {
        let mut next: Vec<Vec<u8>> = Vec::new();
        for f in &files {
            for b in alphabet {
                let mut g = f.clone();
                g.push(b);
                next.push(g);
            }
        }
        files = next;
        for f in &files {
            let mut expected = Records { list: vec![], complete: true };
            for line in std::io::Cursor::new(f.clone()).lines() {
                match line {
                    Ok(l) => {
                        if !l.trim().is_empty() {
                            expected.list.push(l);
                        }
                    }
                    Err(_) => {
                        expected.complete = false;
                        break;
                    }
                }
            }
            assert_eq!(read_jsonl(f), expected, "{f:?}");
        }
    }
}

#[test]
fn records_are_read_back() {
    let list = vec!["{\"a\":1}".to_string(), "{\"b\":\"\u{e9}\"}".to_string()];
    let bytes = write_jsonl(&list);
    assert_eq!(bytes, "{\"a\":1}\n{\"b\":\"\u{e9}\"}\n".as_bytes());
    assert_eq!(read_jsonl(&bytes), Records { list: list.clone(), complete: true });
    let mut grown = bytes.clone();
    grown.extend(write_jsonl(&vec!["{}".to_string()]));
    let mut all = list.clone();
    all.push("{}".to_string());
    assert_eq!(read_jsonl(&grown), Records { list: all, complete: true });
    assert_eq!(split_lines(&b"a\r\n\nb".to_vec()), vec![b"a".to_vec(), b"".to_vec(), b"b".to_vec()]);
}

#[test]
fn the_layout_lies_below_the_root() {
    let layout = Layout::new("/j/matt-voice".to_string());
    assert_eq!(layout.staging_dir(), "/j/matt-voice/training-data/staging");
    assert_eq!(layout.master_voice(), "/j/matt-voice/training-data/matt-voice-voice.jsonl");
    assert_eq!(
        layout.staging_file_at("2026-04-23_220100", "voice-solo"),
        "/j/matt-voice/training-data/staging/2026-04-23_220100_voice-solo.jsonl"
    );
    let re = regex::Regex::new(
        r"^/j/matt-voice/training-data/staging/\d{4}-\d\d-\d\d_\d{6}_voice-group\.jsonl$",
    )
    .unwrap();
    let file = layout.staging_file("voice-group");
    assert!(re.is_match(&file), "{file}");
    assert_eq!(Layout::new("r/".to_string()).staging_dir(), "r/training-data/staging");
    assert_eq!(Layout::new(String::new()).staging_dir(), "training-data/staging");
}

#[test]
fn captures_of_one_second_land_in_different_files() {
    let layout = Layout::new("/r".to_string());
    let mut taken: Vec<String> = vec!["other.jsonl".to_string()];
    let mut files: Vec<String> = Vec::new();
    for _ in 0..12 {
        files.push(layout.fresh_staging_file_at("2026-04-23_220100", "voice-group", &taken));
        taken.push(fresh_name("2026-04-23_220100", "voice-group", &taken));
    }
    let dir = "/r/training-data/staging";
    assert_eq!(files[0], format!("{dir}/2026-04-23_220100_voice-group.jsonl"));
    assert_eq!(files[1], format!("{dir}/2026-04-23_220100_voice-group-1.jsonl"));
    assert_eq!(files[11], format!("{dir}/2026-04-23_220100_voice-group-11.jsonl"));
    for (name, file) in taken[1..].iter().zip(&files) {
        assert_eq!(&format!("{dir}/{name}"), file);
    }
    let nested = layout.fresh_staging_file_at(
        "2026-04-23_220100",
        "a/b",
        &vec!["2026-04-23_220100_a/b.jsonl".to_string()],
    );
    assert_eq!(nested, format!("{dir}/2026-04-23_220100_a/b-1.jsonl"));
    let gap = vec!["s_a.jsonl".to_string(), "s_a-2.jsonl".to_string()];
    assert_eq!(fresh_name("s", "a", &gap), "s_a-1.jsonl");
    assert_eq!(fresh_name("s", "a", &vec![]), "s_a.jsonl");
    let re = regex::Regex::new(r"^/r/training-data/staging/\d{4}-\d\d-\d\d_\d{6}_x\.jsonl$").unwrap();
    assert!(re.is_match(&layout.fresh_staging_file("x", &vec![])));
}

#[test]
fn a_capture_is_staged_as_a_group() {
    let utts = vec![utterance("a", -0.1), utterance("b", -0.2), utterance("c", -0.3), utterance("d", -0.4)];
    let pairs = group_pairs(&utts);
    assert!(pairs.iter().all(|p| p.source == "voice-group"));
    assert_eq!(pairs[3].context, "b\nc");
    let layout = Layout::new("/r".to_string());
    let staged = listener::daemon::capture(&layout, &utts, &vec![]);
    let shas: Vec<&String> = staged.pairs.iter().map(|p| &p.sha).collect();
    assert_eq!(shas, pairs.iter().map(|p| &p.sha).collect::<Vec<&String>>());
    assert!(staged.file.starts_with("/r/training-data/staging/"));
    assert!(staged.file.ends_with("_voice-group.jsonl"));
}

#[test]
fn sample_formats_have_their_scale() {
    assert_eq!(sample_scale(SampleFormat::S16), Some(Scale { zero: 0, full: i16::MAX as u32 }));
    assert_eq!(sample_scale(SampleFormat::S32), Some(Scale { zero: 0, full: i32::MAX as u32 }));
    assert_eq!(sample_scale(SampleFormat::U8), Some(Scale { zero: 128, full: 128 }));
    assert_eq!(sample_scale(SampleFormat::F32), Some(Scale { zero: 0, full: 1 }));
    assert_eq!(sample_scale(SampleFormat::F64), Some(Scale { zero: 0, full: 1 }));
    for f in [
        SampleFormat::U16,
        SampleFormat::U24,
        SampleFormat::U32,
        SampleFormat::S8,
        SampleFormat::S24,
    ] {
        assert_eq!(sample_scale(f), None);
    }
}

#[test]
fn decoding_goes_on_until_the_recording_ends() {
    assert_eq!(after_read(Read::Packet), Next::Decode);
    assert_eq!(after_read(Read::UnexpectedEof), Next::Finish);
    assert_eq!(after_read(Read::OtherError), Next::Fail);
    assert_eq!(track_format(None, None), Err(TrackError::NoSampleRate));
    assert_eq!(track_format(None, Some(2)), Err(TrackError::NoSampleRate));
    assert_eq!(track_format(Some(48_000), None), Err(TrackError::NoChannelMap));
    assert_eq!(track_format(Some(48_000), Some(2)), Ok((48_000, 2)));
    assert!(needs_resampling(48_000));
    assert!(!needs_resampling(WHISPER_SR));
}
