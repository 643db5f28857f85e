//! Picking one speaker's track out of a Craig archive.
//!
//! Craig stores each speaker's audio as `{N}-{user-id}.flac`.

use crate::craig;
use crate::number;
use crate::path;
use crate::text;
use std::io::Read;
use vstd::prelude::*;

verus! {

// ---------------------------------------------------------------------------
// The archive
// ---------------------------------------------------------------------------

/// An archive that is being read (`zip::ZipArchive`).
#[verifier::external_type_specification]
#[verifier::external_body]
#[verifier::reject_recursive_types(R)]
pub struct ExZipArchive<R>(zip::ZipArchive<R>);

/// Bytes that are read like a file (`std::io::Cursor`).
#[verifier::external_type_specification]
#[verifier::external_body]
#[verifier::reject_recursive_types(T)]
pub struct ExCursor<T>(std::io::Cursor<T>);

/// The error of the archive's functions.
#[verifier::external_type_specification]
#[verifier::external_body]
pub struct ExZipError(zip::result::ZipError);

/// What an opened archive holds: of each entry, in the order of its index, the
/// name and the unpacked bytes; nothing in place of a name where the entry
/// cannot be opened, nothing in place of the bytes where it cannot be opened or
/// unpacked.
pub uninterp spec fn archive_entries(
    archive: zip::ZipArchive<std::io::Cursor<Vec<u8>>>,
) -> Seq<(Option<Seq<char>>, Option<Seq<u8>>)>;

/// What `zip::ZipArchive::new` finds in the bytes of a file: the entries, or
/// nothing where the bytes are no archive.
pub uninterp spec fn zip_entries(bytes: Seq<u8>) -> Option<
    Seq<(Option<Seq<char>>, Option<Seq<u8>>)>,
>;

/// Opens an archive with `zip::ZipArchive::new`. Whether it opens, and what it
/// then holds, depends on the bytes alone.
#[verifier::external_body]
fn open_archive(bytes: Vec<u8>) -> (archive: Result<
    zip::ZipArchive<std::io::Cursor<Vec<u8>>>,
    zip::result::ZipError,
>)
    ensures
        match archive {
            Ok(a) => zip_entries(bytes@) == Some(archive_entries(a)),
            Err(_) => zip_entries(bytes@) is None,
        },
{
    zip::ZipArchive::new(std::io::Cursor::new(bytes))
}

/// The number of entries (`ZipArchive::len`).
#[verifier::external_body]
fn archive_len(archive: &zip::ZipArchive<std::io::Cursor<Vec<u8>>>) -> (n: usize)
    ensures
        n == archive_entries(*archive).len(),
{
    archive.len()
}

/// The name of an entry (`ZipArchive::by_index` and `ZipFile::name`). Looking at
/// an entry leaves the archive's contents as they are.
#[verifier::external_body]
fn entry_name(
    archive: &mut zip::ZipArchive<std::io::Cursor<Vec<u8>>>,
    index: usize,
) -> (name: Result<String, zip::result::ZipError>)
    requires
        index < archive_entries(*old(archive)).len(),
    ensures
        archive_entries(*final(archive)) == archive_entries(*old(archive)),
        match name {
            Ok(n) => archive_entries(*old(archive))[index as int].0 == Some(n@),
            Err(_) => archive_entries(*old(archive))[index as int].0 is None,
        },
{
    Ok(archive.by_index(index)?.name().to_string())
}

/// The unpacked bytes of an entry (`ZipArchive::by_index` and
/// `ZipFile::read_to_end`). Unpacking leaves the archive's contents as they are.
#[verifier::external_body]
fn entry_bytes(
    archive: &mut zip::ZipArchive<std::io::Cursor<Vec<u8>>>,
    index: usize,
) -> (bytes: Result<Vec<u8>, zip::result::ZipError>)
    requires
        index < archive_entries(*old(archive)).len(),
    ensures
        archive_entries(*final(archive)) == archive_entries(*old(archive)),
        match bytes {
            Ok(b) => archive_entries(*old(archive))[index as int].1 == Some(b@),
            Err(_) => archive_entries(*old(archive))[index as int].1 is None,
        },
{
    let mut out = Vec::new();
    archive.by_index(index)?.read_to_end(&mut out)?;
    Ok(out)
}

/// An opened Craig archive.
pub struct TrackArchive {
    archive: zip::ZipArchive<std::io::Cursor<Vec<u8>>>,
}

/// Where a speaker's track stands in an archive, and the bare name of its file.
#[derive(Debug, PartialEq, Eq)]
pub struct TrackEntry {
    pub index: usize,
    pub file_name: String,
}

/// Why no track is extracted.
#[derive(Debug, PartialEq, Eq)]
pub enum ExtractError {
    /// The speaker's id holds something else than id characters, or nothing.
    InvalidMattId,
    /// The file is no archive.
    BadArchive,
    /// The entry with this index cannot be opened.
    BadEntry(usize),
    /// The entry's name holds no file name.
    NoFileName(String),
    /// No entry is the speaker's track.
    NoTrack,
    /// The entry with this index cannot be unpacked.
    Unreadable(usize),
}

/// Checks a speaker's id: ASCII letters and digits, `_` and `-`, at least one.
pub fn check_matt_id(matt_id: &str) -> (outcome: Result<(), ExtractError>)
    ensures
        match outcome {
            Ok(_) => craig::is_id(matt_id@),
            Err(e) => e == ExtractError::InvalidMattId && !craig::is_id(matt_id@),
        },
        outcome is Ok <==> matt_id@.len() > 0 && forall|i: int|
            0 <= i < matt_id@.len() ==> craig::is_id_char(#[trigger] matt_id@[i]),
{
    let chars = text::chars_of(matt_id);
    if chars.len() == 0 {
        return Err(ExtractError::InvalidMattId);
    }
    let mut i: usize = 0;
    while i < chars.len()
        invariant
            i <= chars@.len(),
            chars@ == matt_id@,
            forall|j: int| 0 <= j < i ==> craig::is_id_char(#[trigger] matt_id@[j]),
        decreases chars@.len() - i,
    {
        if !craig::id_char(chars[i]) {
            assert(!craig::is_id_char(matt_id@[i as int]));
            return Err(ExtractError::InvalidMattId);
        }
        i += 1;
    }
    Ok(())
}

/// Whether an entry's name is looked at no further: it holds a path separator,
/// `..` or a zero character.
pub open spec fn is_suspicious(name: Seq<char>) -> bool {
    name.contains('/') || text::holds(name, seq!['.', '.']) || name.contains('\0')
}

/// The name of a speaker's track: a number, `-`, the speaker's id and `.flac`.
pub open spec fn track_name(n: Seq<char>, matt_id: Seq<char>) -> Seq<char> {
    n.push('-') + matt_id + seq!['.', 'f', 'l', 'a', 'c']
}

/// Whether an entry is the track of the speaker with the given id.
pub open spec fn is_track(name: Seq<char>, matt_id: Seq<char>) -> bool {
    &&& !is_suspicious(name)
    &&& exists|n: Seq<char>| #[trigger] number::is_digits(n) && name == track_name(n, matt_id)
}

/// Whether an entry is the track of the speaker with the given id.
pub fn matches_track(name: &str, matt_id: &str) -> (yes: bool)
    ensures
        yes == is_track(name@, matt_id@),
{
    let chars = text::chars_of(name);
    let up: Vec<char> = vec!['.', '.'];
    assert(up@ =~= seq!['.', '.']);
    if text::has_char(&chars, '/') || text::contains(&chars, &up) || text::has_char(&chars, '\0') {
        return false;
    }
    let mut n: usize = 0;
    while n < chars.len() && '0' <= chars[n] && chars[n] <= '9'
        invariant
            n <= chars@.len(),
            forall|i: int| 0 <= i < n ==> number::is_digit(#[trigger] chars@[i]),
        decreases chars@.len() - n,
    {
        n += 1;
    }
    let mut rest: Vec<char> = vec!['-'];
    let mut id = text::chars_of(matt_id);
    let mut suffix: Vec<char> = vec!['.', 'f', 'l', 'a', 'c'];
    rest.append(&mut id);
    rest.append(&mut suffix);
    let ghost tail = seq!['-'] + matt_id@ + seq!['.', 'f', 'l', 'a', 'c'];
    assert(rest@ =~= tail);
    let yes = n > 0 && chars.len() - n == rest.len() && text::stands_at(&chars, n, &rest);
    proof {
        let digits = chars@.take(n as int);
        if yes {
            assert(chars@.skip(n as int).take(tail.len() as int) =~= chars@.skip(n as int));
            assert(chars@ =~= digits + chars@.skip(n as int));
            assert(chars@ =~= track_name(digits, matt_id@));
            assert(number::is_digits(digits));
        }
        if is_track(name@, matt_id@) {
            let k = choose|k: Seq<char>| #[trigger]
                number::is_digits(k) && name@ == track_name(k, matt_id@);
            lemma_digits_end(k, matt_id@, n as int);
            assert(chars@.skip(n as int) =~= tail);
            assert(tail.take(tail.len() as int) =~= tail);
        }
    }
    yes
}

/// The number in a track's name is the longest run of digits that it starts with.
proof fn lemma_digits_end(k: Seq<char>, matt_id: Seq<char>, n: int)
    requires
        number::is_digits(k),
        0 <= n <= track_name(k, matt_id).len(),
        forall|i: int| 0 <= i < n ==> number::is_digit(#[trigger] track_name(k, matt_id)[i]),
        n < track_name(k, matt_id).len() ==> !number::is_digit(track_name(k, matt_id)[n]),
    ensures
        n == k.len(),
{
    let name = track_name(k, matt_id);
    assert(name[k.len() as int] == '-');
    if n < k.len() {
        assert(name[n] == k[n]);
    }
    if n > k.len() {
        assert(number::is_digit(name[k.len() as int]));
    }
}

/// Whether `verdict` is what comes of looking at one entry: nothing where the
/// search goes on, else its outcome.
pub open spec fn entry_verdict(
    name: Option<Seq<char>>,
    index: int,
    matt_id: Seq<char>,
    verdict: Option<Result<TrackEntry, ExtractError>>,
) -> bool {
    match name {
        None => verdict matches Some(Err(ExtractError::BadEntry(i))) && i == index,
        Some(n) => if is_track(n, matt_id) {
            match path::file_name_of(n) {
                Some(bare) => verdict matches Some(Ok(e)) && e.index == index && e.file_name@
                    == bare,
                None => verdict matches Some(Err(ExtractError::NoFileName(m))) && m@ == n,
            }
        } else {
            verdict is None
        },
    }
}

/// Whether `outcome` is what a search from entry `from` on comes to: the first
/// entry that is the speaker's track, unless one before it cannot be opened.
pub open spec fn search_outcome(
    entries: Seq<(Option<Seq<char>>, Option<Seq<u8>>)>,
    matt_id: Seq<char>,
    from: int,
    outcome: Result<TrackEntry, ExtractError>,
) -> bool
    decreases entries.len() - from,
{
    if from < 0 || from >= entries.len() {
        outcome == Err::<TrackEntry, ExtractError>(ExtractError::NoTrack)
    } else if entry_verdict(entries[from].0, from, matt_id, None) {
        search_outcome(entries, matt_id, from + 1, outcome)
    } else {
        entry_verdict(entries[from].0, from, matt_id, Some(outcome))
    }
}

/// Looks at one entry, given its name, or nothing where it cannot be opened.
pub fn inspect_entry(name: Option<String>, index: usize, matt_id: &str) -> (verdict: Option<
    Result<TrackEntry, ExtractError>,
>)
    ensures
        entry_verdict(text::optional(name), index as int, matt_id@, verdict),
        match name {
            None => verdict == Some(Err::<TrackEntry, ExtractError>(ExtractError::BadEntry(index))),
            Some(n) => if is_track(n@, matt_id@) {
                verdict matches Some(Ok(e)) && e.index == index && e.file_name@ == n@
            } else {
                verdict is None
            },
        },
{
    match name {
        None => Some(Err(ExtractError::BadEntry(index))),
        Some(n) => {
            if !matches_track(&n, matt_id) {
                return None;
            }
            proof {
                law_track_name_is_plain(n@, matt_id@);
            }
            match path::file_name(&n) {
                Some(file_name) => Some(Ok(TrackEntry { index, file_name })),
                None => Some(Err(ExtractError::NoFileName(n))),
            }
        },
    }
}

impl TrackArchive {
    /// The entries of the archive.
    pub closed spec fn entries(&self) -> Seq<(Option<Seq<char>>, Option<Seq<u8>>)> {
        archive_entries(self.archive)
    }

    /// Opens the archive that a file's bytes make up.
    pub fn open(bytes: Vec<u8>) -> (outcome: Result<TrackArchive, ExtractError>)
        ensures
            match outcome {
                Ok(a) => zip_entries(bytes@) == Some(a.entries()),
                Err(e) => e == ExtractError::BadArchive && zip_entries(bytes@) is None,
            },
    {
        match open_archive(bytes) {
            Ok(archive) => Ok(TrackArchive { archive }),
            Err(_) => Err(ExtractError::BadArchive),
        }
    }

    /// Finds the first track of the speaker with the given id.
    pub fn locate(&mut self, matt_id: &str) -> (outcome: Result<TrackEntry, ExtractError>)
        ensures
            final(self).entries() == old(self).entries(),
            search_outcome(old(self).entries(), matt_id@, 0, outcome),
    {
        let ghost entries = old(self).entries();
        let n: usize = archive_len(&self.archive);
        let mut i: usize = 0;
        while i < n
            invariant
                i <= n,
                n == entries.len(),
                entries == old(self).entries(),
                self.entries() == entries,
                forall|outcome: Result<TrackEntry, ExtractError>|
                    search_outcome(entries, matt_id@, i as int, outcome)
                        ==> #[trigger] search_outcome(entries, matt_id@, 0, outcome),
            decreases n - i,
        {
            let name = match entry_name(&mut self.archive, i) {
                Ok(name) => Some(name),
                Err(_) => None,
            };
            if let Some(outcome) = inspect_entry(name, i, matt_id) {
                return outcome;
            }
            i += 1;
        }
        Err(ExtractError::NoTrack)
    }

    /// Unpacks the entry with the given index.
    pub fn read(&mut self, index: usize) -> (outcome: Result<Vec<u8>, ExtractError>)
        ensures
            final(self).entries() == old(self).entries(),
            match outcome {
                Ok(data) => index < old(self).entries().len() && old(
                    self,
                ).entries()[index as int].1 == Some(data@),
                Err(e) => e == ExtractError::Unreadable(index) && (index >= old(
                    self,
                ).entries().len() || old(self).entries()[index as int].1 is None),
            },
    {
        if index >= archive_len(&self.archive) {
            return Err(ExtractError::Unreadable(index));
        }
        match entry_bytes(&mut self.archive, index) {
            Ok(data) => Ok(data),
            Err(_) => Err(ExtractError::Unreadable(index)),
        }
    }
}

/// A speaker's track: the bare name of its file, and what the file holds.
#[derive(Debug, PartialEq, Eq)]
pub struct Track {
    pub file_name: String,
    pub data: Vec<u8>,
}

/// Whether `outcome` is what unpacking comes to after a search that came to
/// `found`.
pub open spec fn unpack_outcome(
    entries: Seq<(Option<Seq<char>>, Option<Seq<u8>>)>,
    found: Result<TrackEntry, ExtractError>,
    outcome: Result<Track, ExtractError>,
) -> bool {
    match found {
        Err(e) => outcome == Err::<Track, ExtractError>(e),
        Ok(entry) => match entries[entry.index as int].1 {
            Some(data) => outcome matches Ok(track) && track.file_name == entry.file_name
                && track.data@ == data,
            None => outcome == Err::<Track, ExtractError>(ExtractError::Unreadable(entry.index)),
        },
    }
}

/// Whether `outcome` is what searching and unpacking an archive comes to.
pub open spec fn archive_outcome(
    entries: Seq<(Option<Seq<char>>, Option<Seq<u8>>)>,
    matt_id: Seq<char>,
    outcome: Result<Track, ExtractError>,
) -> bool {
    exists|found: Result<TrackEntry, ExtractError>|
        {
            &&& search_outcome(entries, matt_id, 0, found)
            &&& #[trigger] unpack_outcome(entries, found, outcome)
        }
}

/// Whether `outcome` is what extracting the track of the speaker with the given
/// id comes to: the id is checked first, then the archive is opened, searched
/// and unpacked.
pub open spec fn extract_outcome(
    bytes: Seq<u8>,
    matt_id: Seq<char>,
    outcome: Result<Track, ExtractError>,
) -> bool {
    if !craig::is_id(matt_id) {
        outcome == Err::<Track, ExtractError>(ExtractError::InvalidMattId)
    } else {
        match zip_entries(bytes) {
            None => outcome == Err::<Track, ExtractError>(ExtractError::BadArchive),
            Some(entries) => archive_outcome(entries, matt_id, outcome),
        }
    }
}

/// Extracts the track of the speaker with the given id from the bytes of a Craig
/// archive.
pub fn extract_matt_track(bytes: Vec<u8>, matt_id: &str) -> (outcome: Result<Track, ExtractError>)
    ensures
        extract_outcome(bytes@, matt_id@, outcome),
{
    if let Err(e) = check_matt_id(matt_id) {
        return Err(e);
    }
    let mut archive = match TrackArchive::open(bytes) {
        Ok(archive) => archive,
        Err(e) => return Err(e),
    };
    let ghost entries = archive.entries();
    let found = archive.locate(matt_id);
    let ghost result = found;
    let outcome = match found {
        Err(e) => Err(e),
        Ok(entry) => {
            proof {
                law_search_finds_the_first(entries, matt_id@, 0, entry);
            }
            match archive.read(entry.index) {
                Ok(data) => Ok(Track { file_name: entry.file_name, data }),
                Err(e) => Err(e),
            }
        },
    };
    assert(unpack_outcome(entries, result, outcome));
    outcome
}

// ---------------------------------------------------------------------------
// Where the track is put
// ---------------------------------------------------------------------------

/// Why a file is not written where it was meant to go.
#[derive(Debug, PartialEq, Eq)]
pub enum ContainmentError {
    /// The path has no parent directory.
    NoParent,
    /// The path has no file name.
    NoFileName,
    /// The file's directory lies outside the base directory.
    Escapes,
}

/// The directory and the file name of a path that is to be written to.
pub fn split_candidate(candidate: &str) -> (parts: Result<(String, String), ContainmentError>)
    ensures
        match parts {
            Ok((dir, file)) => path::parent_of(candidate@) == Some(dir@) && path::file_name_of(
                candidate@,
            ) == Some(file@),
            Err(ContainmentError::NoParent) => path::parent_of(candidate@) is None,
            Err(ContainmentError::NoFileName) => path::parent_of(candidate@) is Some
                && path::file_name_of(candidate@) is None,
            Err(ContainmentError::Escapes) => false,
        },
{
    match path::parent(candidate) {
        None => Err(ContainmentError::NoParent),
        Some(dir) => match path::file_name(candidate) {
            None => Err(ContainmentError::NoFileName),
            Some(file) => Ok((dir, file)),
        },
    }
}

/// Allows a file in the directory `parent_abs` if that is `base_abs` or lies
/// below it, and gives the file's path. Both directories are resolved: absolute,
/// without links and `..`.
pub fn ensure_within(base_abs: &str, parent_abs: &str, file: &str) -> (out_path: Result<
    String,
    ContainmentError,
>)
    ensures
        match out_path {
            Ok(p) => path::is_within(base_abs@, parent_abs@) && p@ == path::joined(
                parent_abs@,
                file@,
            ),
            Err(e) => e == ContainmentError::Escapes && !path::is_within(base_abs@, parent_abs@),
        },
{
    if path::within(base_abs, parent_abs) {
        Ok(path::join(parent_abs, file))
    } else {
        Err(ContainmentError::Escapes)
    }
}

// ---------------------------------------------------------------------------
// Laws
// ---------------------------------------------------------------------------

/// Whether `name` is a plain file name: no slash, and not empty, `.` or `..`.
pub open spec fn is_plain(name: Seq<char>) -> bool {
    path::is_name(name) && name != seq!['.', '.'] && !name.contains('/')
}

/// The name of every track is plain, and its file name is the name itself: an
/// entry that is taken never lacks a file name, nor loses a directory.
pub proof fn law_track_name_is_plain(name: Seq<char>, matt_id: Seq<char>)
    requires
        is_track(name, matt_id),
    ensures
        is_plain(name),
        path::file_name_of(name) == Some(name),
{
    let n = choose|n: Seq<char>| #[trigger]
        number::is_digits(n) && name == track_name(n, matt_id);
    assert(name.len() >= 7);
    assert(seq!['.'].len() == 1);
    assert(seq!['.', '.'].len() == 2);
    assert(seq!['/'].len() == 1);
    assert(path::is_name(name));
    path::lemma_names_of_name(name);
    assert(path::components(name).last() == name);
}

/// No track is two speakers': an entry is the track of one id at most.
pub proof fn law_track_is_one_speakers(name: Seq<char>, a: Seq<char>, b: Seq<char>)
    requires
        is_track(name, a),
        is_track(name, b),
    ensures
        a == b,
{
    let n = choose|n: Seq<char>| #[trigger] number::is_digits(n) && name == track_name(n, a);
    let m = choose|m: Seq<char>| #[trigger] number::is_digits(m) && name == track_name(m, b);
    assert forall|i: int| 0 <= i < n.len() implies number::is_digit(#[trigger] name[i]) by {
        assert(name[i] == n[i]);
    }
    assert(name[n.len() as int] == '-');
    lemma_digits_end(m, b, n.len() as int);
    assert(a =~= name.subrange(n.len() as int + 1, name.len() - 5));
    assert(b =~= name.subrange(m.len() as int + 1, name.len() - 5));
}

/// Whatever an archive holds, the file that a track is written to lies directly
/// in the directory that was found to be within the base directory.
pub proof fn law_track_stays_within(
    name: Seq<char>,
    matt_id: Seq<char>,
    base_abs: Seq<char>,
    parent_abs: Seq<char>,
)
    requires
        is_track(name, matt_id),
        path::is_within(base_abs, parent_abs),
    ensures
        path::file_name_of(name) matches Some(bare) && path::components(
            path::joined(parent_abs, bare),
        ) == path::components(parent_abs).push(bare) && path::is_within(
            base_abs,
            path::joined(parent_abs, bare),
        ),
{
    law_track_name_is_plain(name, matt_id);
    let bare = path::file_name_of(name)->0;
    path::law_join_file(parent_abs, bare);
    let a = path::components(base_abs);
    let b = path::components(parent_abs);
    let c = path::components(path::joined(parent_abs, bare));
    assert(c.subrange(0, a.len() as int) =~= b.subrange(0, a.len() as int));
}

/// A candidate made of a directory and a plain file name has that directory's
/// components as its parent's, and that name as its file name.
pub proof fn law_candidate_parts(dir: Seq<char>, bare: Seq<char>)
    requires
        is_plain(bare),
    ensures
        path::file_name_of(path::joined(dir, bare)) == Some(bare),
        path::parent_of(path::joined(dir, bare)) == Some(path::rendered(path::components(dir))),
{
    path::law_join_file(dir, bare);
    assert(path::components(dir).push(bare).drop_last() =~= path::components(dir));
    assert(bare != seq!['/']) by {
        assert(seq!['/'][0] == '/');
        assert(seq!['/'].contains('/'));
    }
}

/// A search that succeeds gives an entry of the archive that is the speaker's
/// track, with its file name, and every entry before it could be opened and is
/// not the speaker's track.
pub proof fn law_search_finds_the_first(
    entries: Seq<(Option<Seq<char>>, Option<Seq<u8>>)>,
    matt_id: Seq<char>,
    from: int,
    found: TrackEntry,
)
    requires
        0 <= from <= entries.len(),
        search_outcome(entries, matt_id, from, Ok(found)),
    ensures
        from <= found.index < entries.len(),
        entries[found.index as int].0 matches Some(name) && is_track(name, matt_id)
            && path::file_name_of(name) == Some(found.file_name@),
        forall|k: int|
            from <= k < found.index ==> ((#[trigger] entries[k]).0 matches Some(name) && !is_track(
                name,
                matt_id,
            )),
    decreases entries.len() - from,
{
    if from < entries.len() && entry_verdict(entries[from].0, from, matt_id, None) {
        law_search_finds_the_first(entries, matt_id, from + 1, found);
    }
}

/// A search says that there is no track exactly when every entry can be opened
/// and none is the speaker's track.
pub proof fn law_search_misses_none(
    entries: Seq<(Option<Seq<char>>, Option<Seq<u8>>)>,
    matt_id: Seq<char>,
    from: int,
)
    requires
        0 <= from <= entries.len(),
    ensures
        search_outcome(entries, matt_id, from, Err(ExtractError::NoTrack)) <==> forall|k: int|
            from <= k < entries.len() ==> ((#[trigger] entries[k]).0 matches Some(name)
                && !is_track(name, matt_id)),
    decreases entries.len() - from,
{
    if from < entries.len() {
        law_search_misses_none(entries, matt_id, from + 1);
        if entry_verdict(entries[from].0, from, matt_id, None) {
        } else {
            assert(!(entries[from].0 matches Some(name) && !is_track(name, matt_id)));
        }
    }
}

/// A track that is extracted stands in the archive under its file name, which is
/// plain and made of a number, the speaker's id, as a whole, and `.flac`.
pub proof fn law_extracted_track_is_the_speakers(
    bytes: Seq<u8>,
    matt_id: Seq<char>,
    track: Track,
)
    requires
        extract_outcome(bytes, matt_id, Ok(track)),
    ensures
        is_plain(track.file_name@),
        is_track(track.file_name@, matt_id),
        zip_entries(bytes) matches Some(entries) && entries.contains(
            (Some(track.file_name@), Some(track.data@)),
        ),
{
    let entries = zip_entries(bytes)->0;
    assert(archive_outcome(entries, matt_id, Ok(track)));
    let found = choose|found: Result<TrackEntry, ExtractError>|
        {
            &&& search_outcome(entries, matt_id, 0, found)
            &&& #[trigger] unpack_outcome(entries, found, Ok(track))
        };
    let entry = found->Ok_0;
    law_search_finds_the_first(entries, matt_id, 0, entry);
    let name = entries[entry.index as int].0->0;
    law_track_name_is_plain(name, matt_id);
    assert(entries[entry.index as int] == (Some(track.file_name@), Some(track.data@)));
}

/// An entry is a speaker's track exactly where its name is digits, a hyphen, the
/// speaker's whole id and `.flac`, and holds no slash, no `..` and no zero
/// character.
pub proof fn law_track_name(name: Seq<char>, matt_id: Seq<char>)
    ensures
        is_track(name, matt_id) <==> {
            &&& !name.contains('/') && !name.contains('\0')
            &&& forall|p: int|
                0 <= p && p + 2 <= name.len() ==> #[trigger] name.subrange(p, p + 2) != seq![
                    '.',
                    '.',
                ]
            &&& exists|n: Seq<char>|
                {
                    &&& n.len() > 0
                    &&& forall|i: int| 0 <= i < n.len() ==> '0' <= #[trigger] n[i] <= '9'
                    &&& name == #[trigger] n.push('-') + matt_id + seq!['.', 'f', 'l', 'a', 'c']
                }
        },
{
    let up = seq!['.', '.'];
    assert(up.len() == 2);
    text::law_holds(name, up);
    assert(text::holds(name, up) <==> !(forall|p: int|
        0 <= p && p + 2 <= name.len() ==> #[trigger] name.subrange(p, p + 2) != up)) by {
        if text::holds(name, up) {
            let at = choose|at: int|
                0 <= at <= name.len() - up.len() && #[trigger] name.subrange(at, at + up.len())
                    == up;
            assert(name.subrange(at, at + 2) == up);
        }
        if !(forall|p: int|
            0 <= p && p + 2 <= name.len() ==> #[trigger] name.subrange(p, p + 2) != up) {
            let p = choose|p: int|
                0 <= p && p + 2 <= name.len() && #[trigger] name.subrange(p, p + 2) == up;
            assert(name.subrange(p, p + up.len()) == up);
        }
    }
    if is_track(name, matt_id) {
        let n = choose|n: Seq<char>| #[trigger]
            number::is_digits(n) && name == track_name(n, matt_id);
        assert forall|i: int| 0 <= i < n.len() implies '0' <= #[trigger] n[i] <= '9' by {
            assert(number::is_digit(n[i]));
        }
        assert(name == n.push('-') + matt_id + seq!['.', 'f', 'l', 'a', 'c']);
    }
    if exists|n: Seq<char>|
        {
            &&& n.len() > 0
            &&& forall|i: int| 0 <= i < n.len() ==> '0' <= #[trigger] n[i] <= '9'
            &&& name == #[trigger] n.push('-') + matt_id + seq!['.', 'f', 'l', 'a', 'c']
        } {
        let n = choose|n: Seq<char>|
            {
                &&& n.len() > 0
                &&& forall|i: int| 0 <= i < n.len() ==> '0' <= #[trigger] n[i] <= '9'
                &&& name == #[trigger] n.push('-') + matt_id + seq!['.', 'f', 'l', 'a', 'c']
            };
        assert(number::is_digits(n));
        assert(name == track_name(n, matt_id));
    }
}

/// What looking at one entry comes to: an entry that cannot be opened ends the
/// search with its index, a track ends it with its index and its name, and any
/// other entry is passed over.
pub proof fn law_one_entry(
    name: Option<Seq<char>>,
    index: int,
    matt_id: Seq<char>,
    verdict: Option<Result<TrackEntry, ExtractError>>,
)
    requires
        entry_verdict(name, index, matt_id, verdict),
    ensures
        name is None ==> (verdict matches Some(Err(ExtractError::BadEntry(i))) && i == index),
        name is Some && is_track(name->0, matt_id) ==> (verdict matches Some(Ok(e)) && e.index
            == index && e.file_name@ == name->0),
        name is Some && !is_track(name->0, matt_id) ==> verdict is None,
{
    if name is Some && is_track(name->0, matt_id) {
        law_track_name_is_plain(name->0, matt_id);
    }
}

/// What a search comes to is decided by the first entry that cannot be opened or
/// is the speaker's track: the error with its index, or the entry with its name;
/// and where there is no such entry, there is no track.
pub proof fn law_search(
    entries: Seq<(Option<Seq<char>>, Option<Seq<u8>>)>,
    matt_id: Seq<char>,
    outcome: Result<TrackEntry, ExtractError>,
    j: int,
)
    requires
        search_outcome(entries, matt_id, 0, outcome),
        0 <= j <= entries.len(),
        forall|i: int|
            0 <= i < j ==> ((#[trigger] entries[i]).0 matches Some(name) && !is_track(
                name,
                matt_id,
            )),
    ensures
        j == entries.len() ==> outcome == Err::<TrackEntry, ExtractError>(ExtractError::NoTrack),
        j < entries.len() && entries[j].0 is None ==> (outcome matches Err(
            ExtractError::BadEntry(i),
        ) && i == j),
        j < entries.len() && entries[j].0 is Some && is_track(entries[j].0->0, matt_id) ==> (
        outcome matches Ok(e) && e.index == j && e.file_name@ == entries[j].0->0),
{
    lemma_search_from(entries, matt_id, outcome, 0, j);
    if j < entries.len() {
        if entry_verdict(entries[j].0, j, matt_id, None) {
            law_one_entry(entries[j].0, j, matt_id, None);
        } else {
            law_one_entry(entries[j].0, j, matt_id, Some(outcome));
        }
    }
}

proof fn lemma_search_from(
    entries: Seq<(Option<Seq<char>>, Option<Seq<u8>>)>,
    matt_id: Seq<char>,
    outcome: Result<TrackEntry, ExtractError>,
    from: int,
    j: int,
)
    requires
        0 <= from <= j <= entries.len(),
        search_outcome(entries, matt_id, from, outcome),
        forall|i: int|
            0 <= i < j ==> ((#[trigger] entries[i]).0 matches Some(name) && !is_track(
                name,
                matt_id,
            )),
    ensures
        search_outcome(entries, matt_id, j, outcome),
    decreases j - from,
{
    if from < j {
        assert(entries[from].0 matches Some(name) && !is_track(name, matt_id));
        lemma_search_from(entries, matt_id, outcome, from + 1, j);
    }
}

/// What extracting a track comes to, from the bytes of the file on: an id that
/// holds anything but id characters, or nothing, is refused; so are bytes that
/// are no archive; and else the first entry that cannot be opened or is the
/// speaker's track decides, the latter with its name and all its bytes.
pub proof fn law_extract(
    bytes: Seq<u8>,
    matt_id: Seq<char>,
    outcome: Result<Track, ExtractError>,
    j: int,
)
    requires
        extract_outcome(bytes, matt_id, outcome),
    ensures
        ({
            let valid = matt_id.len() > 0 && forall|i: int|
                0 <= i < matt_id.len() ==> craig::is_id_char(#[trigger] matt_id[i]);
            &&& !valid ==> outcome == Err::<Track, ExtractError>(ExtractError::InvalidMattId)
            &&& valid && zip_entries(bytes) is None ==> outcome == Err::<Track, ExtractError>(
                ExtractError::BadArchive,
            )
            &&& valid ==> (zip_entries(bytes) matches Some(entries) ==> {
                (0 <= j <= entries.len() && forall|i: int|
                    0 <= i < j ==> ((#[trigger] entries[i]).0 matches Some(name) && !is_track(
                        name,
                        matt_id,
                    ))) ==> {
                    &&& j == entries.len() ==> outcome == Err::<Track, ExtractError>(
                        ExtractError::NoTrack,
                    )
                    &&& j < entries.len() && entries[j].0 is None ==> (outcome matches Err(
                        ExtractError::BadEntry(i),
                    ) && i == j)
                    &&& j < entries.len() && entries[j].0 is Some && is_track(
                        entries[j].0->0,
                        matt_id,
                    ) ==> match entries[j].1 {
                        Some(data) => outcome matches Ok(track) && track.file_name@
                            == entries[j].0->0 && track.data@ == data,
                        None => outcome matches Err(ExtractError::Unreadable(i)) && i == j,
                    }
                }
            })
        }),
{
    if craig::is_id(matt_id) && zip_entries(bytes) is Some {
        let entries = zip_entries(bytes)->0;
        assert(archive_outcome(entries, matt_id, outcome));
        let found = choose|found: Result<TrackEntry, ExtractError>|
            {
                &&& search_outcome(entries, matt_id, 0, found)
                &&& #[trigger] unpack_outcome(entries, found, outcome)
            };
        if 0 <= j <= entries.len() && forall|i: int|
            0 <= i < j ==> ((#[trigger] entries[i]).0 matches Some(name) && !is_track(
                name,
                matt_id,
            )) {
            law_search(entries, matt_id, found, j);
        }
    }
}

} // verus!
