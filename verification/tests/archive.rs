//! Extracting a speaker's track from an archive.

use listener::track::{
    check_matt_id, ensure_within, extract_matt_track, inspect_entry, matches_track,
    split_candidate, ContainmentError, ExtractError, Track, TrackArchive, TrackEntry,
};
use std::io::Write;

fn archive(entries: &[(&str, &[u8])]) -> Vec<u8> {
    let mut writer = zip::ZipWriter::new(std::io::Cursor::new(Vec::new()));
    let stored = zip::write::SimpleFileOptions::default()
        .compression_method(zip::CompressionMethod::Stored);
    for (name, data) in entries {
        writer.start_file(*name, stored).unwrap();
        writer.write_all(data).unwrap();
    }
    writer.finish().unwrap().into_inner()
}

/// Where `part` stands in `bytes`.
fn find(bytes: &[u8], part: &[u8]) -> usize {
    bytes.windows(part.len()).position(|w| w == part).unwrap()
}

#[test]
fn the_first_track_of_the_speaker_is_extracted() {
    let bytes = archive(&[
        ("info.txt", b"42"),
        ("1-41.flac", b"other"),
        ("2-42.ogg", b"wrong kind"),
        ("2-42.flac", b"fLaC first"),
        ("3-42.flac", b"fLaC second"),
    ]);
    assert_eq!(
        extract_matt_track(bytes, "42"),
        Ok(Track { file_name: "2-42.flac".to_string(), data: b"fLaC first".to_vec() })
    );
}

#[test]
fn the_id_is_matched_as_a_whole() {
    let bytes = archive(&[("1-1234.flac", b"someone else"), ("2-123.flac", b"matt")]);
    assert_eq!(
        extract_matt_track(bytes.clone(), "123"),
        Ok(Track { file_name: "2-123.flac".to_string(), data: b"matt".to_vec() })
    );
    assert_eq!(extract_matt_track(bytes.clone(), "1234").unwrap().file_name, "1-1234.flac");
    assert_eq!(extract_matt_track(bytes, "12"), Err(ExtractError::NoTrack));
}

#[test]
fn deflated_tracks_are_unpacked() {
    let mut writer = zip::ZipWriter::new(std::io::Cursor::new(Vec::new()));
    let deflated = zip::write::SimpleFileOptions::default()
        .compression_method(zip::CompressionMethod::Deflated);
    writer.start_file("1-matt.flac", deflated).unwrap();
    writer.write_all(&[7u8; 5000]).unwrap();
    let bytes = writer.finish().unwrap().into_inner();
    assert!(bytes.len() < 1000);
    assert_eq!(extract_matt_track(bytes, "matt").unwrap().data, vec![7u8; 5000]);
}

#[test]
fn entries_that_would_leave_the_directory_are_passed_over() {
    let bytes = archive(&[
        ("../1-42.flac", b"a"),
        ("..42.flac", b"b"),
        ("sub/1-42.flac", b"c"),
        ("/1-42.flac", b"d"),
        ("1-42\0.flac", b"e"),
        ("9-42.flac", b"good"),
    ]);
    let mut opened = TrackArchive::open(bytes.clone()).unwrap();
    assert_eq!(opened.locate("42"), Ok(TrackEntry { index: 5, file_name: "9-42.flac".to_string() }));
    assert_eq!(opened.read(5), Ok(b"good".to_vec()));
    assert_eq!(opened.read(0), Ok(b"a".to_vec()));
    assert_eq!(opened.read(6), Err(ExtractError::Unreadable(6)));
    assert_eq!(extract_matt_track(bytes, "42").unwrap().data, b"good".to_vec());
}

#[test]
fn names_are_matched_exactly() {
    assert!(matches_track("1-42.flac", "42"));
    assert!(matches_track("12-42.flac", "42"));
    assert!(matches_track("007-a-b_9.flac", "a-b_9"));
    assert!(!matches_track("142.flac", "42"));
    assert!(!matches_track("1-142.flac", "42"));
    assert!(!matches_track("1-421.flac", "42"));
    assert!(!matches_track("1-42-x.flac", "42"));
    assert!(!matches_track("-42.flac", "42"));
    assert!(!matches_track("x1-42.flac", "42"));
    assert!(!matches_track("42.flac", "42"));
    assert!(!matches_track("1-42.flac.flac", "42"));
    assert!(!matches_track("1-2-42.flac", "42"));
    assert!(!matches_track("", "42"));
    assert!(!matches_track("1-42.FLAC", "42"));
    assert!(!matches_track("1-4 2.flac", "42"));
    assert!(!matches_track("42.flac.zip", "42"));
    assert!(!matches_track("a..42.flac", "42"));
    assert!(!matches_track("a/42.flac", "42"));
    assert!(!matches_track("42\0.flac", "42"));
}

#[test]
fn one_entry_is_inspected() {
    assert_eq!(inspect_entry(None, 3, "42"), Some(Err(ExtractError::BadEntry(3))));
    assert_eq!(inspect_entry(Some("x".to_string()), 3, "42"), None);
    assert_eq!(
        inspect_entry(Some("1-42.flac".to_string()), 3, "42"),
        Some(Ok(TrackEntry { index: 3, file_name: "1-42.flac".to_string() }))
    );
}

#[test]
fn ids_are_checked_before_anything_else() {
    for bad in ["", " ", "a b", "../x", "a/b", "\u{e9}", "a.b", "a\0"] {
        assert_eq!(check_matt_id(bad), Err(ExtractError::InvalidMattId), "{bad:?}");
        assert_eq!(extract_matt_track(vec![1], bad), Err(ExtractError::InvalidMattId));
    }
    assert_eq!(check_matt_id("Ab_9-z"), Ok(()));
}

#[test]
fn archives_without_the_track_are_refused() {
    assert_eq!(extract_matt_track(vec![1, 2, 3], "42"), Err(ExtractError::BadArchive));
    assert_eq!(extract_matt_track(archive(&[]), "42"), Err(ExtractError::NoTrack));
    assert_eq!(extract_matt_track(archive(&[("1-41.flac", b"x")]), "42"), Err(ExtractError::NoTrack));
}

#[test]
fn a_damaged_track_is_unreadable() {
    let mut bytes = archive(&[("a.txt", b"x"), ("1-42.flac", b"the data of the track")]);
    let at = find(&bytes, b"the data of");
    bytes[at] = b'T';
    assert_eq!(extract_matt_track(bytes, "42"), Err(ExtractError::Unreadable(1)));
}

#[test]
fn an_entry_that_cannot_be_opened_ends_the_search() {
    let mut bytes = archive(&[("a.txt", b"x"), ("1-42.flac", b"y")]);
    let central = find(&bytes, b"PK\x01\x02");
    bytes[central + 10] = 77;
    assert_eq!(extract_matt_track(bytes, "42"), Err(ExtractError::BadEntry(0)));
}

#[test]
fn files_stay_within_their_directory() {
    assert_eq!(
        split_candidate("/opt/flac/1-42.flac"),
        Ok(("/opt/flac".to_string(), "1-42.flac".to_string()))
    );
    assert_eq!(split_candidate("/"), Err(ContainmentError::NoParent));
    assert_eq!(split_candidate("/opt/.."), Err(ContainmentError::NoFileName));
    assert_eq!(
        ensure_within("/opt/flac", "/opt/flac", "1-42.flac"),
        Ok("/opt/flac/1-42.flac".to_string())
    );
    assert_eq!(ensure_within("/opt/flac", "/opt/flac/x", "f"), Ok("/opt/flac/x/f".to_string()));
    assert_eq!(ensure_within("/opt/flac", "/opt/flac2", "f"), Err(ContainmentError::Escapes));
    assert_eq!(ensure_within("/opt/flac", "/opt", "f"), Err(ContainmentError::Escapes));
}
