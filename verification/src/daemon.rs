//! The daemon that works through the inbox: what it does next, and how far it
//! has come.

use crate::clock;
use crate::corpus;
use crate::craig;
use crate::layout;
use crate::number;
use crate::path;
use crate::text;
use crate::track;
use crate::whisper;
use vstd::prelude::*;

verus! {

// ---------------------------------------------------------------------------
// One pass over the inbox
// ---------------------------------------------------------------------------

/// What a pass over the inbox is waiting for.
#[derive(Debug, Clone, Copy, PartialEq, Eq, Structural)]
pub enum Phase {
    /// The next line of the inbox.
    Reading,
    /// A recording's archive.
    Downloading,
    /// The speaker's track out of the archive.
    Extracting,
    /// The samples from the track, in a staging file.
    Staging,
    /// Nothing: the pass is over.
    Over,
}

/// A pass over the inbox.
#[derive(Debug, Clone, Copy, PartialEq, Eq, Structural)]
pub struct Tick {
    /// The number of lines that earlier passes have dealt with.
    pub cursor: u64,
    /// The number of lines that this pass has read.
    pub seen: u64,
    /// Whether this pass has staged anything.
    pub staged: bool,
    pub phase: Phase,
}

/// What happens to a pass.
#[derive(Debug, PartialEq, Eq)]
pub enum Event {
    /// A line of the inbox was read.
    Line(String),
    /// The inbox has no more lines.
    End,
    /// The archive was downloaded.
    Downloaded,
    /// The archive could not be downloaded.
    DownloadFailed,
    /// The track was extracted.
    Extracted,
    /// The track could not be extracted.
    ExtractFailed,
    /// The samples were staged.
    Staged,
    /// The inbox could not be read, or the samples could not be staged.
    Failed,
}

/// What a pass does next.
#[derive(Debug, PartialEq, Eq)]
pub enum Action {
    /// Read a line of the inbox.
    ReadLine,
    /// Download the archive of a recording.
    Fetch(craig::CraigJob),
    /// Extract the speaker's track.
    Extract,
    /// Decode the track, transcribe it and write a staging file.
    Stage,
    /// Save the cursor; the pass is over.
    Save(u64),
    /// Do nothing; the pass is over.
    Stop,
}

/// Whether `event` can happen to a pass that waits as `phase` says.
pub open spec fn can_happen(phase: Phase, event: Event) -> bool {
    match phase {
        Phase::Reading => event is Line || event is End || event is Failed,
        Phase::Downloading => event is Downloaded || event is DownloadFailed,
        Phase::Extracting => event is Extracted || event is ExtractFailed,
        Phase::Staging => event is Staged || event is Failed,
        Phase::Over => false,
    }
}

impl Tick {
    /// The number of lines that are dealt with when this pass ends now.
    pub open spec fn reached(self) -> u64 {
        if self.seen > self.cursor {
            self.seen
        } else {
            self.cursor
        }
    }

    /// Whether a pass can have come to this.
    pub open spec fn is_valid(self) -> bool {
        &&& self.staged ==> self.seen > self.cursor
        &&& self.phase == Phase::Downloading || self.phase == Phase::Extracting || self.phase
            == Phase::Staging ==> self.seen > self.cursor
    }
}

/// The start of a pass.
pub open spec fn first_tick(cursor: u64) -> Tick {
    Tick { cursor, seen: 0, staged: false, phase: Phase::Reading }
}

/// The job on the line with the given number, unless an earlier pass has dealt
/// with that line, or the line holds none.
pub open spec fn job_on(line: Seq<char>, line_number: int, cursor: int) -> Option<
    (Seq<char>, Seq<char>, Seq<char>),
> {
    if line_number <= cursor {
        None
    } else {
        craig::line_fields(line)
    }
}

/// Whether `event` takes the pass `before` to `after`, with `action` to be done
/// next.
pub open spec fn is_step(before: Tick, event: Event, after: Tick, action: Action) -> bool {
    match event {
        Event::Line(line) => {
            let seen = before.seen + 1;
            match job_on(line@, seen, before.cursor as int) {
                Some(fields) => {
                    &&& after == (Tick { seen: seen as u64, phase: Phase::Downloading, ..before })
                    &&& action matches Action::Fetch(job) && craig::job_fields(job) == fields
                },
                None => {
                    &&& after == (Tick { seen: seen as u64, ..before })
                    &&& action == Action::ReadLine
                },
            }
        },
        Event::End => {
            &&& after == (Tick { phase: Phase::Over, ..before })
            &&& action == if before.staged || before.reached() != before.cursor {
                Action::Save(before.reached())
            } else {
                Action::Stop
            }
        },
        Event::Downloaded => {
            &&& after == (Tick { phase: Phase::Extracting, ..before })
            &&& action == Action::Extract
        },
        Event::Extracted => {
            &&& after == (Tick { phase: Phase::Staging, ..before })
            &&& action == Action::Stage
        },
        Event::DownloadFailed | Event::ExtractFailed => {
            &&& after == (Tick { phase: Phase::Reading, ..before })
            &&& action == Action::ReadLine
        },
        Event::Staged => {
            &&& after == (Tick { phase: Phase::Reading, staged: true, ..before })
            &&& action == Action::ReadLine
        },
        Event::Failed => {
            &&& after == (Tick { phase: Phase::Over, ..before })
            &&& action == Action::Stop
        },
    }
}

impl Tick {
    /// Starts a pass. The first thing to do is to read a line.
    pub fn start(cursor: u64) -> (tick: Tick)
        ensures
            tick == first_tick(cursor),
            tick == (Tick { cursor, seen: 0, staged: false, phase: Phase::Reading }),
            tick.is_valid(),
    {
        Tick { cursor, seen: 0, staged: false, phase: Phase::Reading }
    }

    /// Takes note of an event and says what to do next.
    pub fn step(&mut self, event: Event) -> (action: Action)
        requires
            old(self).is_valid(),
            event is Line ==> old(self).seen < u64::MAX,
            can_happen(old(self).phase, event),
        ensures
            is_step(*old(self), event, *final(self), action),
            final(self).is_valid(),
    {
        match event {
            Event::Line(line) => {
                self.seen = self.seen + 1;
                if self.seen <= self.cursor {
                    return Action::ReadLine;
                }
                match craig::parse_line(&line) {
                    Some(job) => {
                        self.phase = Phase::Downloading;
                        Action::Fetch(job)
                    },
                    None => Action::ReadLine,
                }
            },
            Event::End => {
                self.phase = Phase::Over;
                let reached: u64 = if self.seen > self.cursor {
                    self.seen
                } else {
                    self.cursor
                };
                if self.staged || reached != self.cursor {
                    Action::Save(reached)
                } else {
                    Action::Stop
                }
            },
            Event::Downloaded => {
                self.phase = Phase::Extracting;
                Action::Extract
            },
            Event::Extracted => {
                self.phase = Phase::Staging;
                Action::Stage
            },
            Event::DownloadFailed | Event::ExtractFailed => {
                self.phase = Phase::Reading;
                Action::ReadLine
            },
            Event::Staged => {
                self.phase = Phase::Reading;
                self.staged = true;
                Action::ReadLine
            },
            Event::Failed => {
                self.phase = Phase::Over;
                Action::Stop
            },
        }
    }
}

// ---------------------------------------------------------------------------
// What a capture becomes
// ---------------------------------------------------------------------------

/// What is staged of one recording: the pairs, and the file that they go to.
#[derive(Debug, PartialEq, Eq)]
pub struct Capture {
    pub file: String,
    pub pairs: Vec<corpus::TrainingPair>,
}

/// Whether `capture` is what is staged of `utts` in the project below `root`,
/// where `taken` are the names in the staging directory.
pub open spec fn is_capture(
    root: Seq<char>,
    utts: Seq<whisper::Utterance>,
    taken: Seq<Seq<char>>,
    capture: Capture,
) -> bool {
    &&& corpus::are_group_pairs(capture.pairs@, utts)
    &&& exists|stamp: Seq<char>| #[trigger]
        clock::is_file_stamp(stamp) && layout::is_fresh_file(
            root,
            stamp,
            "voice-group"@,
            taken,
            capture.file@,
        )
}

/// What is staged of a recording now. A capture goes to a staging file of its own
/// and nowhere else.
pub fn capture(
    files: &layout::Layout,
    utts: &Vec<whisper::Utterance>,
    taken: &Vec<String>,
) -> (capture: Capture)
    ensures
        is_capture(files.root@, utts@, text::texts(taken@), capture),
        exists|stamp: Seq<char>| #[trigger]
            clock::is_file_stamp(stamp) && layout::is_fresh_file(
                files.root@,
                stamp,
                "voice-group"@,
                text::texts(taken@),
                capture.file@,
            ),
        capture.pairs@.len() == utts@.len(),
        forall|i: int|
            0 <= i < utts@.len() ==> {
                let pair = #[trigger] capture.pairs@[i];
                &&& pair.context@ == corpus::context_of(utts@, i, 2)
                &&& pair.matt@ == utts@[i].text@
                &&& pair.source@ == "voice-group"@
                &&& pair.sha@ == corpus::pair_sha(pair.matt@, pair.context@)
                &&& pair.avg_logprob == Some(utts@[i].avg_logprob)
            },
{
    Capture {
        pairs: corpus::group_pairs(utts),
        file: files.fresh_staging_file("voice-group", taken),
    }
}

// ---------------------------------------------------------------------------
// The cursor file, the notice and the daemon's files
// ---------------------------------------------------------------------------

/// The cursor that a cursor file holds: a number among white space, else none.
pub open spec fn cursor_in(contents: Seq<char>) -> u64 {
    match number::parsed(text::trimmed(contents)) {
        Some(n) => n,
        None => 0,
    }
}

/// Reads the contents of a cursor file.
pub fn parse_cursor(contents: &str) -> (cursor: u64)
    ensures
        cursor == cursor_in(contents@),
        cursor == match number::parsed(text::trimmed(contents@)) {
            Some(n) => n,
            None => 0,
        },
{
    match number::parse(&text::trim(contents)) {
        Some(n) => n,
        None => 0,
    }
}

/// The contents of a cursor file.
pub fn render_cursor(cursor: u64) -> (contents: String)
    ensures
        contents@ == number::decimal(cursor as nat),
{
    number::decimal_of(cursor)
}

/// What is said when samples have been staged.
pub open spec fn notice(staging_file: Seq<char>, n_pairs: nat) -> Seq<char> {
    "matt-voice: "@ + number::decimal(n_pairs) + " new utterances staged at "@ + staging_file
        + "\n  review: corpus review "@ + staging_file
}

/// What is said when samples have been staged.
pub fn staging_notice(staging_file: &str, n_pairs: usize) -> (s: String)
    ensures
        s@ == notice(staging_file@, n_pairs as nat),
        s@ == "matt-voice: "@ + number::decimal(n_pairs as nat) + " new utterances staged at "@
            + staging_file@ + "\n  review: corpus review "@ + staging_file@,
{
    let mut s = "matt-voice: ".to_owned();
    number::push_decimal(&mut s, n_pairs as u64);
    s.append(" new utterances staged at ");
    s.append(staging_file);
    s.append("\n  review: corpus review ");
    s.append(staging_file);
    s
}

/// The daemon's files below a project's root.
#[derive(Debug, PartialEq, Eq)]
pub struct DaemonFiles {
    /// The file that links to recordings are appended to.
    pub inbox: String,
    /// The directory of the downloaded archives.
    pub zip_dir: String,
    /// The directory of the extracted tracks.
    pub flac_dir: String,
    /// The file that holds the cursor.
    pub cursor_file: String,
}

impl DaemonFiles {
    /// The daemon's files below `root`.
    pub fn below(root: &str) -> (files: DaemonFiles)
        ensures
            files.inbox@ == path::joined(root@, "craig-inbox.txt"@),
            files.zip_dir@ == path::joined(root@, "craig-zips"@),
            files.flac_dir@ == path::joined(root@, "craig-flac"@),
            files.cursor_file@ == path::joined(root@, ".craig-inbox.cursor"@),
    {
        DaemonFiles {
            inbox: path::join(root, "craig-inbox.txt"),
            zip_dir: path::join(root, "craig-zips"),
            flac_dir: path::join(root, "craig-flac"),
            cursor_file: path::join(root, ".craig-inbox.cursor"),
        }
    }
}

// ---------------------------------------------------------------------------
// Laws
// ---------------------------------------------------------------------------

/// Whether a pass went through `ticks`, by `events`, with `actions` in between.
pub open spec fn is_run(ticks: Seq<Tick>, events: Seq<Event>, actions: Seq<Action>) -> bool {
    &&& ticks.len() == events.len() + 1
    &&& actions.len() == events.len()
    &&& forall|i: int|
        0 <= i < events.len() ==> {
            &&& can_happen(ticks[i].phase, #[trigger] events[i])
            &&& events[i] is Line ==> ticks[i].seen < u64::MAX
            &&& is_step(ticks[i], events[i], ticks[i + 1], actions[i])
        }
}

/// The lines that were read.
pub open spec fn lines_read(events: Seq<Event>) -> Seq<Seq<char>>
    decreases events.len(),
{
    if events.len() == 0 {
        Seq::empty()
    } else {
        let rest = lines_read(events.drop_last());
        match events.last() {
            Event::Line(line) => rest.push(line@),
            _ => rest,
        }
    }
}

/// The jobs whose archives were to be downloaded.
pub open spec fn jobs_fetched(actions: Seq<Action>) -> Seq<(Seq<char>, Seq<char>, Seq<char>)>
    decreases actions.len(),
{
    if actions.len() == 0 {
        Seq::empty()
    } else {
        let rest = jobs_fetched(actions.drop_last());
        match actions.last() {
            Action::Fetch(job) => rest.push(craig::job_fields(job)),
            _ => rest,
        }
    }
}

/// The jobs on the lines of an inbox after the first `cursor` ones.
pub open spec fn jobs_after(lines: Seq<Seq<char>>, cursor: int) -> Seq<
    (Seq<char>, Seq<char>, Seq<char>),
>
    decreases lines.len(),
{
    if lines.len() == 0 {
        Seq::empty()
    } else {
        let rest = jobs_after(lines.drop_last(), cursor);
        match job_on(lines.last(), lines.len() as int, cursor) {
            Some(fields) => rest.push(fields),
            None => rest,
        }
    }
}

proof fn lemma_run_front(ticks: Seq<Tick>, events: Seq<Event>, actions: Seq<Action>)
    requires
        is_run(ticks, events, actions),
        events.len() > 0,
    ensures
        is_run(ticks.drop_last(), events.drop_last(), actions.drop_last()),
        can_happen(ticks.drop_last().last().phase, events.last()),
        events.last() is Line ==> ticks.drop_last().last().seen < u64::MAX,
        is_step(ticks.drop_last().last(), events.last(), ticks.last(), actions.last()),
{
    let n = events.len() as int;
    let front = events.drop_last();
    assert(can_happen(ticks[n - 1].phase, events[n - 1]));
    assert forall|i: int| 0 <= i < front.len() implies {
        &&& can_happen(ticks.drop_last()[i].phase, #[trigger] front[i])
        &&& front[i] is Line ==> ticks.drop_last()[i].seen < u64::MAX
        &&& is_step(
            ticks.drop_last()[i],
            front[i],
            ticks.drop_last()[i + 1],
            actions.drop_last()[i],
        )
    } by {
        assert(front[i] == events[i]);
    }
}

/// However downloads, extractions and stagings turn out, a pass fetches exactly
/// the jobs on the lines that it has read and that earlier passes have not dealt
/// with, each once and in the order of the inbox; and it counts the lines.
pub proof fn law_every_new_job_is_fetched_once(
    ticks: Seq<Tick>,
    events: Seq<Event>,
    actions: Seq<Action>,
    cursor: u64,
)
    requires
        is_run(ticks, events, actions),
        ticks[0] == first_tick(cursor),
    ensures
        jobs_fetched(actions) == jobs_after(lines_read(events), cursor as int),
        ticks.last().seen == lines_read(events).len(),
        ticks.last().cursor == cursor,
        ticks.last().is_valid(),
    decreases events.len(),
{
    if events.len() > 0 {
        lemma_run_front(ticks, events, actions);
        law_every_new_job_is_fetched_once(
            ticks.drop_last(),
            events.drop_last(),
            actions.drop_last(),
            cursor,
        );
        if let Event::Line(line) = events.last() {
            let before = lines_read(events.drop_last());
            assert(before.push(line@).drop_last() =~= before);
        }
    }
}

/// A pass saves the cursor only when it is over, and only if it has read the
/// inbox to its end and found lines that earlier passes had not dealt with. What
/// it saves is the number of lines.
pub proof fn law_cursor_is_saved_at_the_end(
    ticks: Seq<Tick>,
    events: Seq<Event>,
    actions: Seq<Action>,
    cursor: u64,
    i: int,
)
    requires
        is_run(ticks, events, actions),
        ticks[0] == first_tick(cursor),
        0 <= i < events.len(),
    ensures
        actions[i] is Save <==> events[i] is End && lines_read(events).len() > cursor,
        actions[i] matches Action::Save(saved) ==> saved == lines_read(events).len(),
        events[i] is End || events[i] is Failed ==> i == events.len() - 1,
    decreases events.len(),
{
    let n = events.len() as int;
    lemma_run_front(ticks, events, actions);
    law_every_new_job_is_fetched_once(ticks, events, actions, cursor);
    if i < n - 1 {
        let front = events.drop_last();
        assert(front[i] == events[i]);
        assert(can_happen(ticks[i].phase, events[i]));
        assert(can_happen(ticks[i + 1].phase, events[i + 1]));
    } else {
        law_every_new_job_is_fetched_once(
            ticks.drop_last(),
            events.drop_last(),
            actions.drop_last(),
            cursor,
        );
        assert(events.last() == events[i]);
        assert(actions.last() == actions[i]);
    }
}

/// A pass over an inbox, and the next pass over the inbox that has grown since,
/// fetch between them what one pass over the grown inbox would: no job is lost
/// and none is fetched twice.
pub proof fn law_passes_add_up(before: Seq<Seq<char>>, grown: Seq<Seq<char>>, cursor: int)
    requires
        0 <= cursor,
    ensures
        jobs_after(before, cursor) + jobs_after(
            before + grown,
            if before.len() > cursor {
                before.len() as int
            } else {
                cursor
            },
        ) == jobs_after(before + grown, cursor),
    decreases grown.len(),
{
    let next = if before.len() > cursor {
        before.len() as int
    } else {
        cursor
    };
    if grown.len() == 0 {
        assert(before + grown =~= before);
        lemma_nothing_after(before, next);
        assert(jobs_after(before, cursor) + Seq::empty() =~= jobs_after(before, cursor));
    } else {
        let all = before + grown;
        let front = grown.drop_last();
        law_passes_add_up(before, front, cursor);
        assert(all.drop_last() =~= before + front);
        assert(all.last() == grown.last());
        let first = jobs_after(before, cursor);
        if let Some(fields) = job_on(all.last(), all.len() as int, next) {
            assert(first + jobs_after(before + front, next).push(fields) =~= (first + jobs_after(
                before + front,
                next,
            )).push(fields));
        }
    }
}

proof fn lemma_nothing_after(lines: Seq<Seq<char>>, cursor: int)
    requires
        lines.len() <= cursor,
    ensures
        jobs_after(lines, cursor) == Seq::<(Seq<char>, Seq<char>, Seq<char>)>::empty(),
    decreases lines.len(),
{
    if lines.len() > 0 {
        lemma_nothing_after(lines.drop_last(), cursor);
    }
}

proof fn lemma_below(root: Seq<char>, name: Seq<char>)
    requires
        name.len() > 2,
        !name.contains('/'),
    ensures
        path::components(path::joined(root, name)) == path::components(root).push(name),
{
    assert(seq!['.'].len() == 1);
    assert(seq!['.', '.'].len() == 2);
    path::law_join_file(root, name);
}

/// A capture goes to the staging directory, under a name that is not taken there,
/// and to neither the master file nor the inbox.
pub proof fn law_capture_is_staged_only(
    root: Seq<char>,
    utts: Seq<whisper::Utterance>,
    taken: Seq<Seq<char>>,
    capture: Capture,
)
    requires
        is_capture(root, utts, taken, capture),
    ensures
        exists|name: Seq<char>|
            !(#[trigger] taken.contains(name)) && path::components(capture.file@)
                == path::components(layout::staging_path(root)).push(name),
        path::components(capture.file@) != path::components(layout::master_path(root)),
        path::components(capture.file@) != path::components(
            path::joined(root, "craig-inbox.txt"@),
        ),
        forall|i: int|
            0 <= i < capture.pairs@.len() ==> (#[trigger] capture.pairs@[i]).source@
                == "voice-group"@,
{
    reveal_strlit("voice-group");
    reveal_strlit("craig-inbox.txt");
    let stamp = choose|stamp: Seq<char>| #[trigger]
        clock::is_file_stamp(stamp) && layout::is_fresh_file(
            root,
            stamp,
            "voice-group"@,
            taken,
            capture.file@,
        );
    let name = choose|name: Seq<char>| #[trigger]
        layout::is_fresh_name(stamp, "voice-group"@, taken, name) && capture.file@
            == path::joined(layout::staging_path(root), name);
    let k = layout::lemma_number_of(stamp, "voice-group"@, taken, name);
    layout::law_staging_file_is_in_staging_dir(root, stamp, "voice-group"@, k);
    layout::law_staging_is_not_master(root, stamp, "voice-group"@, k);
    layout::law_layout_is_below_root(root);
    lemma_below(root, "craig-inbox.txt"@);
    assert(!taken.contains(name));
}

/// Besides staging files the daemon writes archives, tracks and the cursor, and
/// none of these is the master file or the inbox, whatever the recording's id and
/// the track's name.
pub proof fn law_daemon_keeps_master_and_inbox(
    root: Seq<char>,
    id: Seq<char>,
    track: Seq<char>,
    matt_id: Seq<char>,
    file: Seq<char>,
)
    requires
        craig::is_id(id),
        track::is_track(track, matt_id),
        ({
            ||| file == path::joined(path::joined(root, "craig-zips"@), craig::zip_name(id))
            ||| file == path::joined(path::joined(root, "craig-flac"@), track)
            ||| file == path::joined(root, ".craig-inbox.cursor"@)
        }),
    ensures
        path::components(file) != path::components(layout::master_path(root)),
        path::components(file) != path::components(path::joined(root, "craig-inbox.txt"@)),
{
    reveal_strlit("craig-zips");
    reveal_strlit("craig-flac");
    reveal_strlit(".craig-inbox.cursor");
    reveal_strlit("craig-inbox.txt");
    reveal_strlit("training-data");
    let base = path::components(root);
    let n = base.len() as int;
    layout::law_layout_is_below_root(root);
    lemma_below(root, "craig-inbox.txt"@);
    lemma_below(root, "craig-zips"@);
    lemma_below(root, "craig-flac"@);
    lemma_below(root, ".craig-inbox.cursor"@);
    craig::lemma_zip_name(id);
    lemma_below(path::joined(root, "craig-zips"@), craig::zip_name(id));
    track::law_track_name_is_plain(track, matt_id);
    path::law_join_file(path::joined(root, "craig-flac"@), track);
    let master = path::components(layout::master_path(root));
    assert(master[n] == "training-data"@);
    assert("training-data"@[0] == 't');
    assert("craig-zips"@[0] == 'c');
    assert("craig-flac"@[0] == 'c');
    let list = path::components(file);
    if list.len() == n + 2 {
        assert(list[n] == "craig-zips"@ || list[n] == "craig-flac"@);
    } else {
        assert(list.last() == ".craig-inbox.cursor"@);
        assert(".craig-inbox.cursor"@[0] == '.');
        assert("craig-inbox.txt"@[0] == 'c');
        assert(base.push("craig-inbox.txt"@).last() == "craig-inbox.txt"@);
    }
}

/// The cursor that a cursor file holds is the one that was written to it.
pub proof fn law_cursor_is_read_back(cursor: u64)
    ensures
        cursor_in(number::decimal(cursor as nat)) == cursor,
{
    let digits = number::decimal(cursor as nat);
    number::law_parse_decimal(cursor);
    number::lemma_decimal_digits(cursor as nat);
    assert(number::is_digit(digits[0]));
    assert(number::is_digit(digits[digits.len() - 1]));
}

/// What a pass does with a line: a line that earlier passes have dealt with, or
/// that announces nothing, is only counted; of any other line the job is fetched
/// whose time, address and id are its first, second and third field.
pub proof fn law_a_line_is_fetched_as_it_reads(
    before: Tick,
    line: String,
    after: Tick,
    action: Action,
)
    requires
        before.seen < u64::MAX,
        is_step(before, Event::Line(line), after, action),
    ensures
        after.cursor == before.cursor,
        after.seen == before.seen + 1,
        after.staged == before.staged,
        before.seen < before.cursor || craig::line_fields(line@) is None ==> action
            == Action::ReadLine && after.phase == before.phase,
        before.seen >= before.cursor ==> (craig::line_fields(line@) matches Some((
            captured_at,
            url,
            id,
        )) ==> {
            &&& after.phase == Phase::Downloading
            &&& action matches Action::Fetch(job) && job.captured_at@ == captured_at && job.url@
                == url && job.matt_craig_user_id@ == id
        }),
{
}

/// A line after the cursor that reads `time address id`, with white space between,
/// is fetched as the job with this time, this address and this id.
pub proof fn law_a_job_is_fetched_by_its_fields(
    before: Tick,
    line: String,
    after: Tick,
    action: Action,
    captured_at: Seq<char>,
    gap: Seq<char>,
    url: Seq<char>,
    other_gap: Seq<char>,
    id: Seq<char>,
)
    requires
        before.cursor <= before.seen < u64::MAX,
        is_step(before, Event::Line(line), after, action),
        line@ == captured_at + (gap + (url + (other_gap + id))),
        text::is_blank(gap) && text::is_blank(other_gap),
        gap.len() > 0 && other_gap.len() > 0,
        captured_at.len() > 0 && url.len() > 0 && id.len() > 0,
        text::is_solid(captured_at) && text::is_solid(url) && text::is_solid(id),
        captured_at[0] != '#',
    ensures
        action matches Action::Fetch(job) && job.captured_at@ == captured_at && job.url@ == url
            && job.matt_craig_user_id@ == id,
{
    let none = Seq::<char>::empty();
    assert(id + none =~= id);
    assert(none + line@ =~= line@);
    craig::law_line_round_trip(none, captured_at, gap, url, other_gap, id, none);
}

/// What a pass does after each other event: a download leads to the extraction
/// and that to the staging; where one of the first two fails, or the samples are
/// staged, the next line is read; a failure of the staging or of the inbox ends
/// the pass with nothing saved; and the end of the inbox ends it with the number
/// of lines saved, if there were lines that earlier passes had not dealt with.
/// Nothing but a line moves the count, and nothing at all the cursor.
pub proof fn law_steps(before: Tick, event: Event, after: Tick, action: Action)
    requires
        before.is_valid(),
        is_step(before, event, after, action),
    ensures
        after.cursor == before.cursor,
        !(event is Line) ==> after.seen == before.seen,
        after.staged == (before.staged || event is Staged),
        event is Downloaded ==> action == Action::Extract && after.phase == Phase::Extracting,
        event is Extracted ==> action == Action::Stage && after.phase == Phase::Staging,
        event is DownloadFailed || event is ExtractFailed || event is Staged ==> action
            == Action::ReadLine && after.phase == Phase::Reading,
        event is Failed ==> action == Action::Stop && after.phase == Phase::Over,
        event is End ==> after.phase == Phase::Over,
        event is End && before.seen > before.cursor ==> action == Action::Save(before.seen),
        event is End && before.seen <= before.cursor ==> action == Action::Stop,
{
}

/// The jobs that a pass fetches are the fields of the lines after the cursor,
/// line by line: a line more adds its fields where it announces a job and stands
/// after the cursor, and nothing else.
pub proof fn law_jobs_after(lines: Seq<Seq<char>>, line: Seq<char>, cursor: int)
    ensures
        jobs_after(Seq::empty(), cursor).len() == 0,
        lines.len() < cursor ==> jobs_after(lines.push(line), cursor) == jobs_after(lines, cursor),
        lines.len() >= cursor ==> jobs_after(lines.push(line), cursor) == match craig::line_fields(
            line,
        ) {
            Some(fields) => jobs_after(lines, cursor).push(fields),
            None => jobs_after(lines, cursor),
        },
{
    assert(lines.push(line).drop_last() =~= lines);
}

/// The jobs fetched are those of the actions that fetch, by their time, address
/// and id, in order.
pub proof fn law_jobs_fetched(actions: Seq<Action>, action: Action)
    ensures
        jobs_fetched(Seq::empty()).len() == 0,
        jobs_fetched(actions.push(action)) == match action {
            Action::Fetch(job) => jobs_fetched(actions).push(
                (job.captured_at@, job.url@, job.matt_craig_user_id@),
            ),
            _ => jobs_fetched(actions),
        },
{
    assert(actions.push(action).drop_last() =~= actions);
}

/// The lines read are those of the events that read one, in order.
pub proof fn law_lines_read(events: Seq<Event>, event: Event)
    ensures
        lines_read(Seq::empty()).len() == 0,
        lines_read(events.push(event)) == match event {
            Event::Line(line) => lines_read(events).push(line@),
            _ => lines_read(events),
        },
{
    assert(events.push(event).drop_last() =~= events);
}

} // verus!
