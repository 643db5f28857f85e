//! Craig recordings: the inbox that announces them, and which downloads are
//! allowed.
//!
//! Inbox format, one recording per line:
//!
//! ```text
//! 2026-04-23T22:01:00Z  https://craig.horse/rec/{id}?key={key}  {craig_user_id_for_matt}
//! ```

use crate::path;
use crate::text;
use vstd::prelude::*;

verus! {

/// One recording to fetch.
#[derive(Debug, Clone, PartialEq, Eq)]
pub struct CraigJob {
    pub url: String,
    pub matt_craig_user_id: String,
    pub captured_at: String,
}

/// What a job says: when it was captured, its address, the speaker's id.
pub open spec fn job_fields(job: CraigJob) -> (Seq<char>, Seq<char>, Seq<char>) {
    (job.captured_at@, job.url@, job.matt_craig_user_id@)
}

/// The fields of an inbox line. Blank lines, comments and lines with fewer than
/// three fields announce nothing; fields after the third are ignored.
pub open spec fn line_fields(line: Seq<char>) -> Option<(Seq<char>, Seq<char>, Seq<char>)> {
    let t = text::trimmed(line);
    let w = text::words(t);
    if t.len() == 0 || t[0] == '#' || w.len() < 3 {
        None
    } else {
        Some((w[0], w[1], w[2]))
    }
}

/// The job that an inbox line announces, if any.
pub fn parse_line(line: &str) -> (job: Option<CraigJob>)
    ensures
        match job {
            Some(j) => line_fields(line@) == Some(job_fields(j)),
            None => line_fields(line@) is None,
        },
        ({
            let w = text::words(line@);
            match job {
                Some(j) => {
                    &&& w.len() >= 3 && w[0][0] != '#'
                    &&& j.captured_at@ == w[0]
                    &&& j.url@ == w[1]
                    &&& j.matt_craig_user_id@ == w[2]
                },
                None => w.len() < 3 || w[0][0] == '#',
            }
        }),
{
    let t = text::trim(line);
    let chars = text::chars_of(&t);
    proof {
        text::lemma_words_trimmed(line@);
        text::lemma_blank(line@);
        text::law_trimmed(line@);
        if t@.len() > 0 {
            text::lemma_first_word(t@);
        }
    }
    if chars.len() == 0 || chars[0] == '#' {
        return None;
    }
    let fields = text::split_words(&t);
    let ghost w = text::words(t@);
    assert(w.len() == fields@.len());
    if fields.len() < 3 {
        return None;
    }
    assert(w[0] == fields@[0]@ && w[1] == fields@[1]@ && w[2] == fields@[2]@);
    Some(
        CraigJob {
            captured_at: fields[0].clone(),
            url: fields[1].clone(),
            matt_craig_user_id: fields[2].clone(),
        },
    )
}

/// Three fields with white space between them, and around them or not, are read
/// as they were written, unless the line is a comment.
pub proof fn law_line_round_trip(
    before: Seq<char>,
    captured_at: Seq<char>,
    gap: Seq<char>,
    url: Seq<char>,
    other_gap: Seq<char>,
    id: Seq<char>,
    after: Seq<char>,
)
    requires
        text::is_blank(before) && text::is_blank(gap) && text::is_blank(other_gap),
        gap.len() > 0 && other_gap.len() > 0,
        captured_at.len() > 0 && url.len() > 0 && id.len() > 0,
        text::is_solid(captured_at) && text::is_solid(url) && text::is_solid(id),
        captured_at[0] != '#',
        after.len() > 0 ==> text::is_white_space(after[0]),
    ensures
        line_fields(before + (captured_at + (gap + (url + (other_gap + (id + after)))))) == Some(
            (captured_at, url, id),
        ),
{
    let end = id + after;
    let middle = url + (other_gap + end);
    let rest = captured_at + (gap + middle);
    let line = before + rest;
    text::lemma_words_skip_blank(before, rest);
    assert((gap + middle)[0] == gap[0]);
    text::lemma_words_first(captured_at, gap + middle);
    text::lemma_words_skip_blank(gap, middle);
    assert((other_gap + end)[0] == other_gap[0]);
    text::lemma_words_first(url, other_gap + end);
    text::lemma_words_skip_blank(other_gap, end);
    text::lemma_words_first(id, after);
    text::lemma_words_trimmed(line);
    let w = text::words(line);
    assert(w == seq![captured_at] + (seq![url] + (seq![id] + text::words(after))));
    assert(w[0] == captured_at && w[1] == url && w[2] == id);
    text::lemma_blank(line);
    text::lemma_trimmed_skip_blank(before, rest);
    assert(rest[0] == captured_at[0]);
}

/// A line whose first word begins with `#` announces nothing.
pub proof fn law_comments_are_skipped(before: Seq<char>, rest: Seq<char>)
    requires
        text::is_blank(before),
        rest.len() > 0,
        rest[0] == '#',
    ensures
        line_fields(before + rest) is None,
{
    text::lemma_trimmed_skip_blank(before, rest);
}

/// A blank line announces nothing.
pub proof fn law_blank_lines_are_skipped(line: Seq<char>)
    requires
        text::is_blank(line),
    ensures
        line_fields(line) is None,
{
    text::lemma_blank(line);
}

/// The fields of a job are not empty and hold no white space.
pub proof fn law_fields_are_solid(line: Seq<char>)
    ensures
        line_fields(line) matches Some((captured_at, url, id)) ==> {
            &&& captured_at.len() > 0 && text::is_solid(captured_at)
            &&& url.len() > 0 && text::is_solid(url)
            &&& id.len() > 0 && text::is_solid(id)
        },
{
    text::lemma_words_are_solid(text::trimmed(line));
}

// ---------------------------------------------------------------------------
// Downloads
// ---------------------------------------------------------------------------

/// Whether `c` may stand in an id: a letter or digit of ASCII, `_` or `-`.
pub open spec fn is_id_char(c: char) -> bool {
    'A' <= c <= 'Z' || 'a' <= c <= 'z' || '0' <= c <= '9' || c == '_' || c == '-'
}

/// Whether `id` is a non-empty run of id characters.
pub open spec fn is_id(id: Seq<char>) -> bool {
    id.len() > 0 && forall|i: int| 0 <= i < id.len() ==> is_id_char(#[trigger] id[i])
}

/// Whether `c` may stand in an id.
pub fn id_char(c: char) -> (yes: bool)
    ensures
        yes == is_id_char(c),
        yes == ('A' <= c <= 'Z' || 'a' <= c <= 'z' || '0' <= c <= '9' || c == '_' || c == '-'),
{
    ('A' <= c && c <= 'Z') || ('a' <= c && c <= 'z') || ('0' <= c && c <= '9') || c == '_' || c
        == '-'
}

/// How many id characters `s` begins with.
pub open spec fn id_len(s: Seq<char>) -> nat
    decreases s.len(),
{
    if s.len() > 0 && is_id_char(s[0]) {
        1 + id_len(s.drop_first())
    } else {
        0
    }
}

/// What stands before a recording's id in an address.
pub open spec fn rec_marker() -> Seq<char> {
    seq!['/', 'r', 'e', 'c', '/']
}

/// The id of the recording that `url` is the address of: the id characters
/// after the first `/rec/` that is followed by any.
pub open spec fn rec_id(url: Seq<char>) -> Option<Seq<char>>
    decreases url.len(),
{
    if url.len() == 0 {
        None
    } else if text::begins_with(url, rec_marker()) && id_len(url.skip(5)) > 0 {
        Some(url.skip(5).take(id_len(url.skip(5)) as int))
    } else {
        rec_id(url.drop_first())
    }
}

proof fn lemma_id_len(s: Seq<char>, n: int)
    requires
        0 <= n <= s.len(),
        forall|i: int| 0 <= i < n ==> is_id_char(#[trigger] s[i]),
        n < s.len() ==> !is_id_char(s[n]),
    ensures
        id_len(s) == n,
    decreases s.len(),
{
    if n > 0 {
        let rest = s.drop_first();
        assert(is_id_char(s[0]));
        assert forall|i: int| 0 <= i < n - 1 implies is_id_char(#[trigger] rest[i]) by {
            assert(rest[i] == s[i + 1]);
        }
        lemma_id_len(rest, n - 1);
    }
}

/// The id of the recording that `url` is the address of, if it names one.
pub fn extract_rec_id(url: &str) -> (id: Option<String>)
    ensures
        text::optional(id) == rec_id(url@),
        match id {
            Some(found) => rec_id(url@) == Some(found@),
            None => rec_id(url@) is None,
        },
{
    let chars = text::chars_of(url);
    let n: usize = chars.len();
    let marker: Vec<char> = vec!['/', 'r', 'e', 'c', '/'];
    assert(marker@ =~= rec_marker());
    let mut at: usize = 0;
    assert(chars@.skip(0) =~= chars@);
    while at < n
        invariant
            at <= n,
            n == chars@.len(),
            chars@ == url@,
            marker@ == rec_marker(),
            rec_id(url@) == rec_id(chars@.skip(at as int)),
        decreases n - at,
    {
        let ghost here = chars@.skip(at as int);
        assert(here.drop_first() =~= chars@.skip(at + 1));
        if text::stands_at(&chars, at, &marker) {
            let from: usize = at + 5;
            let mut to: usize = from;
            while to < n && id_char(chars[to])
                invariant
                    from <= to <= n,
                    n == chars@.len(),
                    forall|i: int| from <= i < to ==> is_id_char(#[trigger] chars@[i]),
                decreases n - to,
            {
                to += 1;
            }
            proof {
                let rest = here.skip(5);
                assert(rest =~= chars@.skip(from as int));
                assert forall|i: int| 0 <= i < to - from implies is_id_char(
                    #[trigger] rest[i],
                ) by {
                    assert(rest[i] == chars@[from + i]);
                }
                lemma_id_len(rest, to - from);
                assert(rest.take(to - from) =~= chars@.subrange(from as int, to as int));
            }
            if to > from {
                return Some(text::text_of(&chars, from, to));
            }
        }
        at += 1;
    }
    assert(chars@.skip(at as int) =~= Seq::<char>::empty());
    None
}

/// A recording's id holds id characters only.
pub proof fn law_rec_id_is_an_id(url: Seq<char>)
    ensures
        rec_id(url) matches Some(id) ==> is_id(id),
    decreases url.len(),
{
    if url.len() > 0 {
        law_rec_id_is_an_id(url.drop_first());
        lemma_id_run(url.skip(5));
    }
}

proof fn lemma_id_run(s: Seq<char>)
    ensures
        id_len(s) <= s.len(),
        forall|i: int| 0 <= i < id_len(s) ==> is_id_char(#[trigger] s[i]),
    decreases s.len(),
{
    if s.len() > 0 && is_id_char(s[0]) {
        let rest = s.drop_first();
        lemma_id_run(rest);
        assert forall|i: int| 0 <= i < id_len(s) implies is_id_char(#[trigger] s[i]) by {
            if i > 0 {
                assert(rest[i - 1] == s[i]);
            }
        }
    }
}

/// What a download needs to know of an address.
#[derive(Debug, PartialEq, Eq)]
pub struct UrlParts {
    pub scheme: String,
    pub host: Option<String>,
}

/// The scheme and the host of an address, as text.
pub open spec fn parts_fields(parts: UrlParts) -> (Seq<char>, Option<Seq<char>>) {
    (parts.scheme@, text::optional(parts.host))
}

/// The error of `url::Url::parse`.
#[verifier::external_type_specification]
#[verifier::external_body]
pub struct ExUrlParseError(url::ParseError);

/// What `url::Url::parse` makes of a text: its scheme, as `Url::scheme` gives
/// it, and its host, as `Url::host_str` gives it; nothing where it is no
/// absolute address.
pub uninterp spec fn url_parts(address: Seq<char>) -> Option<(Seq<char>, Option<Seq<char>>)>;

/// Parses an address with `url::Url::parse`. The result depends on the text
/// alone; what the parts are for a given text is left to that function.
#[verifier::external_body]
fn parse_url(address: &str) -> (parts: Result<UrlParts, url::ParseError>)
    ensures
        match parts {
            Ok(p) => url_parts(address@) == Some(parts_fields(p)),
            Err(_) => url_parts(address@) is None,
        },
{
    let parsed = url::Url::parse(address)?;
    Ok(
        UrlParts {
            scheme: parsed.scheme().to_string(),
            host: parsed.host_str().map(|h| h.to_string()),
        },
    )
}

/// A download that may go ahead: what to fetch and where to put it.
#[derive(Debug, PartialEq, Eq)]
pub struct Download {
    pub url: String,
    pub out_path: String,
}

/// Why a download is refused.
#[derive(Debug, PartialEq, Eq)]
pub enum DownloadError {
    BadUrl,
    NoHost,
    HostNotAllowed(String),
    NotHttps(String),
    NoRecId,
}

/// The only hosts that are fetched from. The list keeps a tampered inbox from
/// making the daemon probe internal services.
pub open spec fn is_allowed_host(host: Seq<char>) -> bool {
    host == "craig.horse"@ || host == "craig.chat"@
}

/// Whether `host` may be fetched from.
pub fn allowed_host(host: &str) -> (yes: bool)
    ensures
        yes == is_allowed_host(host@),
        yes == (host@ == "craig.horse"@ || host@ == "craig.chat"@),
{
    text::same_text(host, "craig.horse") || text::same_text(host, "craig.chat")
}

/// The name of the file that a recording is stored in.
pub open spec fn zip_name(id: Seq<char>) -> Seq<char> {
    "craig_"@ + id + ".zip"@
}

/// Whether `outcome` is what comes of the address `url` with the given parts:
/// the first of these checks that fails gives the error.
pub open spec fn download_outcome(
    url: Seq<char>,
    parts: Option<(Seq<char>, Option<Seq<char>>)>,
    dest_dir: Seq<char>,
    outcome: Result<Download, DownloadError>,
) -> bool {
    match parts {
        None => outcome matches Err(DownloadError::BadUrl),
        Some((scheme, None)) => outcome matches Err(DownloadError::NoHost),
        Some((scheme, Some(host))) => if !is_allowed_host(host) {
            outcome matches Err(DownloadError::HostNotAllowed(h)) && h@ == host
        } else if scheme != "https"@ {
            outcome matches Err(DownloadError::NotHttps(s)) && s@ == scheme
        } else {
            match rec_id(url) {
                None => outcome matches Err(DownloadError::NoRecId),
                Some(id) => outcome matches Ok(d) && d.url@ == url && d.out_path@
                    == path::joined(dest_dir, zip_name(id)),
            }
        },
    }
}

/// Decides on a download whose address has the given parts.
pub fn check_download(job: &CraigJob, parts: Option<UrlParts>, dest_dir: &str) -> (outcome: Result<
    Download,
    DownloadError,
>)
    ensures
        download_outcome(
            job.url@,
            match parts {
                Some(p) => Some(parts_fields(p)),
                None => None,
            },
            dest_dir@,
            outcome,
        ),
{
    let parts = match parts {
        None => return Err(DownloadError::BadUrl),
        Some(p) => p,
    };
    let host = match parts.host {
        None => return Err(DownloadError::NoHost),
        Some(h) => h,
    };
    if !allowed_host(&host) {
        return Err(DownloadError::HostNotAllowed(host));
    }
    if !text::same_text(&parts.scheme, "https") {
        return Err(DownloadError::NotHttps(parts.scheme));
    }
    match extract_rec_id(&job.url) {
        None => Err(DownloadError::NoRecId),
        Some(id) => {
            let mut name = "craig_".to_owned();
            name.append(&id);
            name.append(".zip");
            Ok(Download { url: job.url.clone(), out_path: path::join(dest_dir, &name) })
        },
    }
}

/// Decides on the download that a job asks for: only an `https` address of an
/// allowed host that names a recording is fetched, and the file it goes to is
/// named after the recording's id, not after the address.
pub fn plan_download(job: &CraigJob, dest_dir: &str) -> (outcome: Result<Download, DownloadError>)
    ensures
        download_outcome(job.url@, url_parts(job.url@), dest_dir@, outcome),
{
    match parse_url(&job.url) {
        Ok(parts) => check_download(job, Some(parts), dest_dir),
        Err(_) => check_download(job, None, dest_dir),
    }
}

/// Whether an address with the given parts may be fetched from: it is an `https`
/// address of an allowed host.
pub open spec fn is_allowed_address(parts: Option<(Seq<char>, Option<Seq<char>>)>) -> bool {
    parts matches Some((scheme, Some(host))) && scheme == "https"@ && is_allowed_host(host)
}

/// Whether an address with the given parts may be fetched from.
pub fn allowed_parts(parts: Option<UrlParts>) -> (yes: bool)
    ensures
        yes == is_allowed_address(
            match parts {
                Some(p) => Some(parts_fields(p)),
                None => None,
            },
        ),
        yes <==> (parts matches Some(p) && p.scheme@ == "https"@ && (p.host matches Some(host) && (
        host@ == "craig.horse"@ || host@ == "craig.chat"@))),
{
    match parts {
        None => false,
        Some(p) => match p.host {
            None => false,
            Some(host) => allowed_host(&host) && text::same_text(&p.scheme, "https"),
        },
    }
}

/// Whether a download may be redirected to an address: the hosts that are fetched
/// from are the same on every step.
pub fn may_redirect_to(address: &str) -> (yes: bool)
    ensures
        yes == is_allowed_address(url_parts(address@)),
        yes <==> (url_parts(address@) matches Some((scheme, Some(host))) && scheme == "https"@ && (
        host == "craig.horse"@ || host == "craig.chat"@)),
{
    match parse_url(address) {
        Ok(parts) => allowed_parts(Some(parts)),
        Err(_) => allowed_parts(None),
    }
}

/// Whatever the address, an accepted download comes from an allowed host over
/// `https` and goes to a file directly in the destination directory.
pub proof fn law_accepted_download_is_safe(
    url: Seq<char>,
    parts: Option<(Seq<char>, Option<Seq<char>>)>,
    dest_dir: Seq<char>,
    outcome: Result<Download, DownloadError>,
)
    requires
        download_outcome(url, parts, dest_dir, outcome),
        outcome is Ok,
    ensures
        is_allowed_address(parts),
        outcome->Ok_0.url@ == url,
        rec_id(url) matches Some(id) && path::components(outcome->Ok_0.out_path@)
            == path::components(dest_dir).push(zip_name(id)),
{
    law_rec_id_is_an_id(url);
    let id = rec_id(url)->0;
    lemma_zip_name(id);
    assert(seq!['.'].len() == 1);
    assert(seq!['.', '.'].len() == 2);
    path::law_join_file(dest_dir, zip_name(id));
}

/// A recording's file has a name without slashes.
pub(crate) proof fn lemma_zip_name(id: Seq<char>)
    requires
        is_id(id),
    ensures
        zip_name(id).len() > 10,
        !zip_name(id).contains('/'),
{
    let name = zip_name(id);
    reveal_strlit("craig_");
    reveal_strlit(".zip");
    assert forall|i: int| 0 <= i < name.len() implies name[i] != '/' by {
        if i < 6 {
            assert(name[i] == "craig_"@[i]);
        } else if i < 6 + id.len() {
            assert(name[i] == id[i - 6]);
        } else {
            assert(name[i] == ".zip"@[i - 6 - id.len()]);
        }
    }
}

/// A line of three fields, with white space between them, is the job with exactly
/// these fields: the time first, then the address, then the speaker's id.
pub proof fn law_job_of_a_line(
    line: Seq<char>,
    job: CraigJob,
    before: Seq<char>,
    captured_at: Seq<char>,
    gap: Seq<char>,
    url: Seq<char>,
    other_gap: Seq<char>,
    id: Seq<char>,
    after: Seq<char>,
)
    requires
        line_fields(line) == Some(job_fields(job)),
        line == before + (captured_at + (gap + (url + (other_gap + (id + after))))),
        text::is_blank(before) && text::is_blank(gap) && text::is_blank(other_gap),
        gap.len() > 0 && other_gap.len() > 0,
        captured_at.len() > 0 && url.len() > 0 && id.len() > 0,
        text::is_solid(captured_at) && text::is_solid(url) && text::is_solid(id),
        after.len() > 0 ==> text::is_white_space(after[0]),
    ensures
        job.captured_at@ == captured_at,
        job.url@ == url,
        job.matt_craig_user_id@ == id,
{
    let rest = captured_at + (gap + (url + (other_gap + (id + after))));
    if captured_at[0] == '#' {
        assert(rest[0] == '#');
        law_comments_are_skipped(before, rest);
    }
    law_line_round_trip(before, captured_at, gap, url, other_gap, id, after);
}

/// The id of a recording is the longest run of id characters that follows a
/// `/rec/`, the first that any follows; where none does, there is no id.
pub proof fn law_rec_id_is_the_first_and_longest(url: Seq<char>)
    ensures
        match rec_id(url) {
            None => forall|p: int|
                0 <= p && p + 5 < url.len() && #[trigger] url.subrange(p, p + 5) == seq![
                    '/',
                    'r',
                    'e',
                    'c',
                    '/',
                ] ==> !is_id_char(url[p + 5]),
            Some(id) => exists|p: int|
                {
                    &&& 0 <= p && p + 5 + id.len() <= url.len()
                    &&& #[trigger] url.subrange(p, p + 5) == seq!['/', 'r', 'e', 'c', '/']
                    &&& id == url.subrange(p + 5, p + 5 + id.len())
                    &&& id.len() > 0
                    &&& forall|i: int| 0 <= i < id.len() ==> is_id_char(#[trigger] id[i])
                    &&& p + 5 + id.len() < url.len() ==> !is_id_char(url[p + 5 + id.len()])
                    &&& forall|q: int|
                        0 <= q < p && #[trigger] url.subrange(q, q + 5) == seq![
                            '/',
                            'r',
                            'e',
                            'c',
                            '/',
                        ] ==> !is_id_char(url[q + 5])
                },
        },
    decreases url.len(),
{
    let marker = seq!['/', 'r', 'e', 'c', '/'];
    assert(marker.len() == 5);
    if url.len() > 0 {
        let rest = url.drop_first();
        let tail = url.skip(5);
        law_rec_id_is_the_first_and_longest(rest);
        assert forall|p: int| 0 <= p && p + 6 <= url.len() implies rest.subrange(p, p + 5)
            == #[trigger] url.subrange(p + 1, p + 1 + 5) by {
            assert(rest.subrange(p, p + 5) =~= url.subrange(p + 1, p + 6));
        }
        if text::begins_with(url, marker) && id_len(tail) > 0 {
            lemma_id_run(tail);
            lemma_id_stops(tail);
            let id = rec_id(url)->0;
            assert(url.subrange(0int, 0int + 5) =~= marker);
            assert(id =~= url.subrange(0int + 5, 0int + 5 + id.len()));
            assert forall|i: int| 0 <= i < id.len() implies is_id_char(#[trigger] id[i]) by {
                assert(id[i] == tail[i]);
            }
        } else {
            if url.len() >= 6 && url.subrange(0, 5) == marker {
                assert(url.take(5) =~= marker);
                assert(tail[0] == url[5]);
            }
            match rec_id(rest) {
                None => {
                    assert forall|p: int|
                        0 <= p && p + 5 < url.len() && #[trigger] url.subrange(p, p + 5)
                            == marker implies !is_id_char(url[p + 5]) by {
                        if p > 0 {
                            assert(rest.subrange(p - 1, p - 1 + 5) =~= url.subrange(p, p + 5));
                            assert(rest[p - 1 + 5] == url[p + 5]);
                        }
                    }
                },
                Some(id) => {
                    let p = choose|p: int|
                        {
                            &&& 0 <= p && p + 5 + id.len() <= rest.len()
                            &&& #[trigger] rest.subrange(p, p + 5) == marker
                            &&& id == rest.subrange(p + 5, p + 5 + id.len())
                            &&& id.len() > 0
                            &&& forall|i: int| 0 <= i < id.len() ==> is_id_char(#[trigger] id[i])
                            &&& p + 5 + id.len() < rest.len() ==> !is_id_char(
                                rest[p + 5 + id.len()],
                            )
                            &&& forall|q: int|
                                0 <= q < p && #[trigger] rest.subrange(q, q + 5) == marker
                                    ==> !is_id_char(rest[q + 5])
                        };
                    let w = p + 1;
                    assert(url.subrange(w, w + 5) =~= marker);
                    assert(id =~= url.subrange(w + 5, w + 5 + id.len()));
                    assert forall|q: int|
                        0 <= q < w && #[trigger] url.subrange(q, q + 5)
                            == marker implies !is_id_char(url[q + 5]) by {
                        if q > 0 {
                            assert(rest.subrange(q - 1, q - 1 + 5) =~= url.subrange(q, q + 5));
                            assert(rest[q - 1 + 5] == url[q + 5]);
                        }
                    }
                },
            }
        }
    }
}

proof fn lemma_id_stops(s: Seq<char>)
    ensures
        id_len(s) < s.len() ==> !is_id_char(s[id_len(s) as int]),
    decreases s.len(),
{
    if s.len() > 0 && is_id_char(s[0]) {
        lemma_id_stops(s.drop_first());
    }
}

/// What comes of a job, case by case: the first of these checks that fails gives
/// the error, and a job that passes them all is fetched from its own address into
/// the file that carries the recording's id.
pub proof fn law_download(
    url: Seq<char>,
    parts: Option<(Seq<char>, Option<Seq<char>>)>,
    dest_dir: Seq<char>,
    outcome: Result<Download, DownloadError>,
)
    requires
        download_outcome(url, parts, dest_dir, outcome),
    ensures
        parts is None ==> outcome == Err::<Download, DownloadError>(DownloadError::BadUrl),
        (parts matches Some((_, None)) ==> outcome == Err::<Download, DownloadError>(
            DownloadError::NoHost,
        )),
        (parts matches Some((scheme, Some(host))) ==> {
            let allowed = host == "craig.horse"@ || host == "craig.chat"@;
            &&& !allowed ==> (outcome matches Err(DownloadError::HostNotAllowed(h)) && h@ == host)
            &&& allowed && scheme != "https"@ ==> (outcome matches Err(
                DownloadError::NotHttps(s),
            ) && s@ == scheme)
            &&& allowed && scheme == "https"@ && rec_id(url) is None ==> outcome == Err::<
                Download,
                DownloadError,
            >(DownloadError::NoRecId)
            &&& allowed && scheme == "https"@ && rec_id(url) is Some ==> (outcome matches Ok(d)
                && d.url@ == url && d.out_path@ == path::joined(
                dest_dir,
                "craig_"@ + rec_id(url)->0 + ".zip"@,
            ))
        }),
{
}

} // verus!
