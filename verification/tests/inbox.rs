//! The inbox, downloads, and the daemon's passes.

use listener::craig::{
    allowed_parts, check_download, extract_rec_id, may_redirect_to, parse_line, plan_download,
    CraigJob, Download, DownloadError, UrlParts,
};
use listener::daemon::{
    parse_cursor, render_cursor, staging_notice, Action, DaemonFiles, Event, Phase, Tick,
};

fn job(url: &str) -> CraigJob {
    CraigJob {
        url: url.to_string(),
        matt_craig_user_id: "42".to_string(),
        captured_at: "2026-04-23T22:01:00Z".to_string(),
    }
}

#[test]
fn a_line_with_three_fields_is_a_job() {
    let line = "2026-04-23T22:01:00Z  https://craig.horse/rec/abc?key=k  1234-matt";
    let expected = CraigJob {
        captured_at: "2026-04-23T22:01:00Z".to_string(),
        url: "https://craig.horse/rec/abc?key=k".to_string(),
        matt_craig_user_id: "1234-matt".to_string(),
    };
    assert_eq!(parse_line(line), Some(expected.clone()));
    assert_eq!(parse_line(&format!("  {line}\t more fields \n")), Some(expected));
}

#[test]
fn blank_lines_comments_and_short_lines_are_no_jobs() {
    for line in ["", "   \t", "# a b c", "   # a b c", "one", "one two", "one two  "] {
        assert_eq!(parse_line(line), None, "{line:?}");
    }
    assert!(parse_line("a #b c").is_some());
    let job = parse_line("\u{a0}a\u{2003}b\tc\r").unwrap();
    assert_eq!((job.captured_at.as_str(), job.url.as_str()), ("a", "b"));
    assert_eq!(job.matt_craig_user_id, "c");
}

#[test]
fn recording_ids_are_those_of_the_regular_expression() {
    let re = regex::Regex::new(r"/rec/([A-Za-z0-9_-]+)").unwrap();
    let pieces = ["/rec/", "/rec", "a", "_-9Z", "?key=", "/", "\u{e9}", "rec/"];
    let mut urls: Vec<String> = vec![String::new()];
    for _ in 0..5 {
        let mut next: Vec<String> = Vec::new();
        for u in &urls {
            for p in pieces {
                next.push(format!("{u}{p}"));
            }
        }
        urls = next;
        for u in &urls {
            let expected = re.captures(u).map(|c| c[1].to_string());
            assert_eq!(extract_rec_id(u), expected, "{u}");
        }
    }
}

#[test]
fn an_allowed_recording_is_downloaded_under_its_id() {
    let url = "https://craig.horse/rec/a_B-9?key=../../x";
    assert_eq!(
        plan_download(&job(url), "/opt/matt-voice/craig-zips"),
        Ok(Download {
            url: url.to_string(),
            out_path: "/opt/matt-voice/craig-zips/craig_a_B-9.zip".to_string(),
        })
    );
    assert!(plan_download(&job("HTTPS://CRAIG.CHAT/rec/x"), "z").is_ok());
}

#[test]
fn other_downloads_are_refused() {
    let refused = |url: &str| plan_download(&job(url), "z").unwrap_err();
    assert_eq!(refused("not a url"), DownloadError::BadUrl);
    assert_eq!(refused("/rec/abc"), DownloadError::BadUrl);
    assert_eq!(refused("data:/rec/abc"), DownloadError::NoHost);
    assert_eq!(
        refused("https://127.0.0.1/rec/abc"),
        DownloadError::HostNotAllowed("127.0.0.1".to_string())
    );
    assert_eq!(
        refused("https://craig.horse.evil.example/rec/abc"),
        DownloadError::HostNotAllowed("craig.horse.evil.example".to_string())
    );
    assert_eq!(
        refused("https://craig.horse@evil.example/rec/abc"),
        DownloadError::HostNotAllowed("evil.example".to_string())
    );
    assert_eq!(
        refused("http://craig.horse/rec/abc"),
        DownloadError::NotHttps("http".to_string())
    );
    assert_eq!(
        refused("http://evil.example/rec/abc"),
        DownloadError::HostNotAllowed("evil.example".to_string())
    );
    assert_eq!(refused("https://craig.horse/recordings/abc"), DownloadError::NoRecId);
    assert_eq!(refused("https://craig.horse/rec/?key=1"), DownloadError::NoRecId);
}

#[test]
fn the_parts_of_an_address_decide() {
    let parts = |scheme: &str, host: Option<&str>| {
        Some(UrlParts { scheme: scheme.to_string(), host: host.map(|h| h.to_string()) })
    };
    let j = job("anything/rec/id1/rec/id2");
    assert_eq!(check_download(&j, None, "d"), Err(DownloadError::BadUrl));
    assert_eq!(check_download(&j, parts("https", None), "d"), Err(DownloadError::NoHost));
    assert_eq!(
        check_download(&j, parts("https", Some("craig.chat")), "d"),
        Ok(Download { url: j.url.clone(), out_path: "d/craig_id1.zip".to_string() })
    );
    assert_eq!(
        check_download(&j, parts("ftp", Some("craig.chat")), ""),
        Err(DownloadError::NotHttps("ftp".to_string()))
    );
}

#[test]
fn redirects_stay_on_the_allowed_hosts() {
    assert!(may_redirect_to("https://craig.chat/files/x.zip"));
    assert!(may_redirect_to("https://craig.horse:8443/"));
    assert!(!may_redirect_to("http://craig.chat/files/x.zip"));
    assert!(!may_redirect_to("https://169.254.169.254/latest"));
    assert!(!may_redirect_to("data:text/plain,x"));
    assert!(!may_redirect_to("craig.chat"));
    assert!(!allowed_parts(None));
    let parts = |scheme: &str, host: Option<&str>| {
        Some(UrlParts { scheme: scheme.to_string(), host: host.map(|h| h.to_string()) })
    };
    assert!(allowed_parts(parts("https", Some("craig.horse"))));
    assert!(!allowed_parts(parts("https", None)));
}

/// Runs a pass over `lines`. `outcomes` says, for each fetched job in turn, how
/// far it gets: 0 download fails, 1 extraction fails, 2 staged, 3 staging fails.
fn pass(lines: &[&str], cursor: u64, outcomes: &[u32]) -> (Vec<String>, Option<u64>) {
    let mut tick = Tick::start(cursor);
    let mut lines = lines.iter();
    let mut outcomes = outcomes.iter();
    let mut outcome: u32 = 2;
    let mut fetched = Vec::new();
    let mut action = Action::ReadLine;
    loop {
        let event = match action {
            Action::ReadLine => match lines.next() {
                Some(l) => Event::Line(l.to_string()),
                None => Event::End,
            },
            Action::Fetch(job) => {
                fetched.push(job.url);
                outcome = *outcomes.next().unwrap();
                if outcome == 0 { Event::DownloadFailed } else { Event::Downloaded }
            }
            Action::Extract => {
                if outcome == 1 { Event::ExtractFailed } else { Event::Extracted }
            }
            Action::Stage => {
                if outcome == 3 { Event::Failed } else { Event::Staged }
            }
            Action::Save(n) => {
                assert_eq!(tick.phase, Phase::Over);
                return (fetched, Some(n));
            }
            Action::Stop => {
                assert_eq!(tick.phase, Phase::Over);
                return (fetched, None);
            }
        };
        action = tick.step(event);
    }
}

#[test]
fn a_pass_fetches_the_new_jobs_in_order() {
    let lines = ["t u1 m", "# note", "", "t u2 m", "t u3 m"];
    let all: Vec<String> = vec!["u1".to_string(), "u2".to_string(), "u3".to_string()];
    assert_eq!(pass(&lines, 0, &[2, 2, 2]), (all.clone(), Some(5)));
    assert_eq!(pass(&lines, 0, &[0, 1, 2]), (all.clone(), Some(5)));
    assert_eq!(pass(&lines, 0, &[0, 0, 0]), (all.clone(), Some(5)));
    assert_eq!(pass(&lines, 1, &[2, 2]), (all[1..].to_vec(), Some(5)));
    assert_eq!(pass(&lines, 5, &[]), (vec![], None));
    assert_eq!(pass(&lines, 9, &[]), (vec![], None));
    assert_eq!(pass(&[], 0, &[]), (vec![], None));
    assert_eq!(pass(&["# only a note"], 0, &[]), (vec![], Some(1)));
}

#[test]
fn a_pass_that_fails_saves_nothing() {
    let lines = ["t u1 m", "t u2 m", "t u3 m"];
    let (fetched, saved) = pass(&lines, 0, &[2, 3]);
    assert_eq!(fetched, vec!["u1".to_string(), "u2".to_string()]);
    assert_eq!(saved, None);
    let mut tick = Tick::start(0);
    assert_eq!(tick.step(Event::Failed), Action::Stop);
}

#[test]
fn passes_add_up() {
    let lines = ["t u1 m", "", "t u2 m", "t u3 m", "# x", "t u4 m"];
    let whole = pass(&lines, 0, &[2, 2, 2, 2]).0;
    for n in 0..=lines.len() {
        let (mut fetched, saved) = pass(&lines[..n], 0, &[2, 2, 2, 2]);
        let (rest, _) = pass(&lines, saved.unwrap_or(0), &[2, 2, 2, 2]);
        fetched.extend(rest);
        assert_eq!(fetched, whole);
    }
}

#[test]
fn the_cursor_is_read_back() {
    for n in [0u64, 1, 42, u64::MAX] {
        assert_eq!(parse_cursor(&render_cursor(n)), n);
    }
    assert_eq!(render_cursor(17), "17");
    assert_eq!(parse_cursor(" 17 \n"), 17);
    for bad in ["", "x", "-1", "1 2", "99999999999999999999"] {
        assert_eq!(parse_cursor(bad), 0, "{bad}");
    }
}

#[test]
fn the_notice_names_the_file_twice() {
    assert_eq!(
        staging_notice("/r/s.jsonl", 12),
        "matt-voice: 12 new utterances staged at /r/s.jsonl\n  review: corpus review /r/s.jsonl"
    );
}

#[test]
fn the_files_of_the_daemon_lie_below_the_root() {
    assert_eq!(
        DaemonFiles::below("/opt/matt-voice"),
        DaemonFiles {
            inbox: "/opt/matt-voice/craig-inbox.txt".to_string(),
            zip_dir: "/opt/matt-voice/craig-zips".to_string(),
            flac_dir: "/opt/matt-voice/craig-flac".to_string(),
            cursor_file: "/opt/matt-voice/.craig-inbox.cursor".to_string(),
        }
    );
}
