//! Where the files of a project lie.

use crate::clock;
use crate::number;
use crate::path;
use crate::pieces;
use crate::text;
use vstd::prelude::*;

verus! {

/// The directories and files below a project's root.
#[derive(Debug, Clone, PartialEq, Eq)]
pub struct Layout {
    pub root: String,
}

/// The directory of the files that wait for a review, below `root`.
pub open spec fn staging_path(root: Seq<char>) -> Seq<char> {
    path::joined(root, "training-data/staging"@)
}

/// The master file of the voice corpus, below `root`.
pub open spec fn master_path(root: Seq<char>) -> Seq<char> {
    path::joined(root, "training-data/matt-voice-voice.jsonl"@)
}

/// The name of a staging file.
pub open spec fn staging_name(stamp: Seq<char>, source: Seq<char>) -> Seq<char> {
    stamp + seq!['_'] + source + ".jsonl"@
}

/// The staging file for samples from `source` that were captured at `stamp`.
pub open spec fn staging_file_path(
    root: Seq<char>,
    stamp: Seq<char>,
    source: Seq<char>,
) -> Seq<char> {
    path::joined(staging_path(root), staging_name(stamp, source))
}

/// The name of the staging file number `k` for samples from `source` that were
/// captured at `stamp`: those after the first carry their number.
pub open spec fn numbered_name(stamp: Seq<char>, source: Seq<char>, k: nat) -> Seq<char> {
    if k == 0 {
        staging_name(stamp, source)
    } else {
        stamp + seq!['_'] + source + seq!['-'] + number::decimal(k) + ".jsonl"@
    }
}

/// Whether `name` is the first name for samples from `source` that were captured
/// at `stamp` that is not taken.
pub open spec fn is_fresh_name(
    stamp: Seq<char>,
    source: Seq<char>,
    taken: Seq<Seq<char>>,
    name: Seq<char>,
) -> bool {
    &&& !taken.contains(name)
    &&& exists|k: nat|
        {
            &&& name == #[trigger] numbered_name(stamp, source, k)
            &&& forall|j: nat| j < k ==> taken.contains(#[trigger] numbered_name(stamp, source, j))
        }
}

/// Whether `file` is the staging file with the first name that is not taken.
pub open spec fn is_fresh_file(
    root: Seq<char>,
    stamp: Seq<char>,
    source: Seq<char>,
    taken: Seq<Seq<char>>,
    file: Seq<char>,
) -> bool {
    exists|name: Seq<char>| #[trigger]
        is_fresh_name(stamp, source, taken, name) && file == path::joined(staging_path(root), name)
}

proof fn lemma_names_differ(stamp: Seq<char>, source: Seq<char>, j: nat, k: nat)
    requires
        j < k,
    ensures
        numbered_name(stamp, source, j) != numbered_name(stamp, source, k),
{
    let a = numbered_name(stamp, source, j);
    let b = numbered_name(stamp, source, k);
    let tail = ".jsonl"@;
    let base = stamp + seq!['_'] + source;
    number::lemma_decimal_digits(j);
    number::lemma_decimal_digits(k);
    assert(b.len() == base.len() + 1 + number::decimal(k).len() + tail.len());
    if j == 0 {
        assert(a.len() == base.len() + tail.len());
    } else if a == b {
        let from = base.len() as int + 1;
        assert(number::decimal(j) =~= a.subrange(from, a.len() - tail.len()));
        assert(number::decimal(k) =~= b.subrange(from, b.len() - tail.len()));
    }
}

/// As many names as are taken, and one more, are not all taken.
proof fn lemma_name_is_left(stamp: Seq<char>, source: Seq<char>, taken: Seq<Seq<char>>, k: nat)
    requires
        forall|j: nat| j <= k ==> taken.contains(#[trigger] numbered_name(stamp, source, j)),
    ensures
        k < taken.len(),
{
    let names = Seq::new(k + 1, |j: int| numbered_name(stamp, source, j as nat));
    assert forall|i: int, j: int| 0 <= i < j < names.len() implies names[i] != names[j] by {
        lemma_names_differ(stamp, source, i as nat, j as nat);
    }
    names.unique_seq_to_set();
    assert forall|name: Seq<char>| names.to_set().contains(name) implies taken.to_set().contains(
        name,
    ) by {
        let j = choose|j: int| 0 <= j < names.len() && names[j] == name;
        assert(taken.contains(numbered_name(stamp, source, j as nat)));
    }
    vstd::seq_lib::seq_to_set_is_finite(taken);
    vstd::set_lib::lemma_len_subset(names.to_set(), taken.to_set());
    taken.lemma_cardinality_of_set();
}

/// Whether `name` is one of `taken`.
fn is_taken(taken: &Vec<String>, name: &str) -> (yes: bool)
    ensures
        yes == text::texts(taken@).contains(name@),
{
    let ghost all = text::texts(taken@);
    let mut i: usize = 0;
    while i < taken.len()
        invariant
            i <= taken@.len(),
            all == text::texts(taken@),
            forall|j: int| 0 <= j < i ==> #[trigger] all[j] != name@,
        decreases taken@.len() - i,
    {
        if text::same_text(&taken[i], name) {
            assert(all[i as int] == name@);
            return true;
        }
        i += 1;
    }
    false
}

/// The first name for samples from `source` that were captured at `stamp` that is
/// not taken.
pub fn fresh_name(stamp: &str, source: &str, taken: &Vec<String>) -> (name: String)
    ensures
        is_fresh_name(stamp@, source@, text::texts(taken@), name@),
{
    let ghost all = text::texts(taken@);
    let n: usize = taken.len();
    let mut k: usize = 0;
    loop
        invariant
            k <= n == taken@.len(),
            all == text::texts(taken@),
            forall|j: nat| j < k ==> all.contains(#[trigger] numbered_name(stamp@, source@, j)),
        decreases n - k,
    {
        let mut name = stamp.to_owned();
        name.push('_');
        name.append(source);
        if k > 0 {
            name.push('-');
            number::push_decimal(&mut name, k as u64);
        }
        name.append(".jsonl");
        assert(name@ =~= numbered_name(stamp@, source@, k as nat));
        if !is_taken(taken, &name) {
            return name;
        }
        proof {
            lemma_name_is_left(stamp@, source@, all, k as nat);
            assert(all.len() == taken@.len());
        }
        k += 1;
    }
}

impl Layout {
    /// The layout of the project below `root`.
    pub fn new(root: String) -> (layout: Layout)
        ensures
            layout.root == root,
    {
        Layout { root }
    }

    /// The directory of the files that wait for a review.
    pub fn staging_dir(&self) -> (dir: String)
        ensures
            dir@ == staging_path(self.root@),
            dir@ == path::joined(self.root@, "training-data/staging"@),
    {
        path::join(&self.root, "training-data/staging")
    }

    /// The master file of the voice corpus.
    pub fn master_voice(&self) -> (file: String)
        ensures
            file@ == master_path(self.root@),
            file@ == path::joined(self.root@, "training-data/matt-voice-voice.jsonl"@),
    {
        path::join(&self.root, "training-data/matt-voice-voice.jsonl")
    }

    /// The staging file for samples from `source` that were captured at `stamp`.
    pub fn staging_file_at(&self, stamp: &str, source: &str) -> (file: String)
        ensures
            file@ == staging_file_path(self.root@, stamp@, source@),
            file@ == path::joined(
                path::joined(self.root@, "training-data/staging"@),
                stamp@ + seq!['_'] + source@ + ".jsonl"@,
            ),
    {
        let mut name = String::new();
        name.append(stamp);
        name.push('_');
        name.append(source);
        name.append(".jsonl");
        assert(name@ =~= staging_name(stamp@, source@));
        path::join(&self.staging_dir(), &name)
    }

    /// The staging file for samples from `source` that are captured now.
    pub fn staging_file(&self, source: &str) -> (file: String)
        ensures
            exists|stamp: Seq<char>| #[trigger]
                clock::is_file_stamp(stamp) && file@ == staging_file_path(
                    self.root@,
                    stamp,
                    source@,
                ),
    {
        let stamp = clock::now_formatted("%Y-%m-%d_%H%M%S");
        self.staging_file_at(&stamp, source)
    }

    /// The staging file for samples from `source` that were captured at `stamp`,
    /// under a name that is none of `taken`.
    pub fn fresh_staging_file_at(&self, stamp: &str, source: &str, taken: &Vec<String>) -> (file:
        String)
        ensures
            is_fresh_file(self.root@, stamp@, source@, text::texts(taken@), file@),
    {
        let name = fresh_name(stamp, source, taken);
        path::join(&self.staging_dir(), &name)
    }

    /// The staging file for samples from `source` that are captured now, under a
    /// name that is none of `taken`, the names in the staging directory: captures
    /// of the same second land in different files.
    pub fn fresh_staging_file(&self, source: &str, taken: &Vec<String>) -> (file: String)
        ensures
            exists|stamp: Seq<char>| #[trigger]
                clock::is_file_stamp(stamp) && is_fresh_file(
                    self.root@,
                    stamp,
                    source@,
                    text::texts(taken@),
                    file@,
                ),
    {
        let stamp = clock::now_formatted("%Y-%m-%d_%H%M%S");
        self.fresh_staging_file_at(&stamp, source, taken)
    }
}

// ---------------------------------------------------------------------------
// Laws
// ---------------------------------------------------------------------------

proof fn lemma_below_root(root: Seq<char>, dir: Seq<char>, name: Seq<char>)
    requires
        path::is_name(dir),
        !dir.contains('/'),
        path::is_name(name),
        !name.contains('/'),
    ensures
        path::components(path::joined(root, dir.push('/') + name)) == path::components(root) + seq![
            dir,
            name,
        ],
{
    let tail = dir.push('/') + name;
    assert(tail[0] == dir[0]);
    assert(dir.contains(dir[0]));
    pieces::lemma_pieces_around(dir, '/', name);
    pieces::lemma_pieces_whole(dir, '/');
    pieces::lemma_pieces_whole(name, '/');
    assert(pieces::pieces(tail, '/') =~= seq![dir, name]);
    assert(path::names(tail) =~= seq![dir, name]) by {
        reveal_with_fuel(Seq::filter, 3);
        assert(seq![dir, name].drop_last() =~= seq![dir]);
        assert(seq![dir].drop_last() =~= Seq::<Seq<char>>::empty());
    }
    if root.len() == 0 {
        assert(root =~= Seq::<char>::empty());
        path::lemma_components_of_nothing();
        assert(path::components(tail) =~= path::components(root) + seq![dir, name]);
    } else {
        path::law_join_appends(root, tail);
    }
}

/// The staging directory and the master file lie in the same directory below the
/// root.
pub proof fn law_layout_is_below_root(root: Seq<char>)
    ensures
        path::components(staging_path(root)) == path::components(root) + seq![
            "training-data"@,
            "staging"@,
        ],
        path::components(master_path(root)) == path::components(root) + seq![
            "training-data"@,
            "matt-voice-voice.jsonl"@,
        ],
{
    reveal_strlit("training-data");
    reveal_strlit("staging");
    reveal_strlit("matt-voice-voice.jsonl");
    reveal_strlit("training-data/staging");
    reveal_strlit("training-data/matt-voice-voice.jsonl");
    assert("training-data/staging"@ =~= "training-data"@.push('/') + "staging"@);
    assert("training-data/matt-voice-voice.jsonl"@ =~= "training-data"@.push('/')
        + "matt-voice-voice.jsonl"@);
    assert(seq!['.'].len() == 1);
    lemma_below_root(root, "training-data"@, "staging"@);
    lemma_below_root(root, "training-data"@, "matt-voice-voice.jsonl"@);
}

/// What follows the source in the name of staging file number `k`.
spec fn name_end(k: nat) -> Seq<char> {
    if k == 0 {
        ".jsonl"@
    } else {
        seq!['-'] + number::decimal(k) + ".jsonl"@
    }
}

proof fn lemma_name_parts(stamp: Seq<char>, source: Seq<char>, k: nat)
    requires
        clock::is_file_stamp(stamp),
    ensures
        numbered_name(stamp, source, k) == stamp.push('_') + source + name_end(k),
        !stamp.push('_').contains('/'),
        !name_end(k).contains('/'),
        name_end(k).len() >= 6,
{
    let head = stamp.push('_');
    let end = name_end(k);
    let n = stamp.len() as int;
    reveal_strlit(".jsonl");
    number::lemma_decimal_digits(k);
    assert(numbered_name(stamp, source, k) =~= head + source + end);
    assert forall|i: int| 0 <= i < head.len() implies head[i] != '/' by {
        if i < n - 13 {
            assert(head[i] == stamp[i]);
            assert(number::is_digit(stamp[i]) || stamp[i] == '+');
        } else if i < n {
            assert(head[i] == stamp[i]);
        }
    }
    assert forall|i: int| 0 <= i < end.len() implies end[i] != '/' by {
        if k == 0 {
            assert(end[i] == ".jsonl"@[i]);
        } else if 0 < i < 1 + number::decimal(k).len() {
            assert(number::is_digit(number::decimal(k)[i - 1]));
        } else if i > 0 {
            assert(end[i] == ".jsonl"@[i - 1 - number::decimal(k).len()]);
        }
    }
}

/// The pieces of a staging file's name: those of the source, with the time before
/// the first and the number behind the last.
proof fn lemma_name_pieces(stamp: Seq<char>, source: Seq<char>, k: nat)
    requires
        clock::is_file_stamp(stamp),
    ensures
        ({
            let p = pieces::pieces(source, '/');
            let all = pieces::pieces(numbered_name(stamp, source, k), '/');
            let head = stamp.push('_') + p[0];
            let tail = p.last() + name_end(k);
            &&& p.len() >= 1
            &&& p.len() == 1 ==> all == seq![head + name_end(k)]
            &&& p.len() > 1 ==> all == (seq![head] + p.subrange(1, p.len() - 1)).push(tail)
        }),
{
    let head = stamp.push('_');
    let p = pieces::pieces(source, '/');
    lemma_name_parts(stamp, source, k);
    pieces::lemma_pieces(source, '/');
    pieces::lemma_pieces_prefix(head, source, '/');
    pieces::lemma_pieces_suffix(head + source, name_end(k), '/');
    let q = seq![head + p[0]] + p.skip(1);
    if p.len() == 1 {
        assert(q =~= seq![head + p[0]]);
        assert(q.drop_last() =~= Seq::<Seq<char>>::empty());
        assert(q.drop_last().push(q.last() + name_end(k)) =~= seq![head + p[0] + name_end(k)]);
    } else {
        assert(q.last() == p.last());
        assert(q.drop_last() =~= seq![head + p[0]] + p.subrange(1, p.len() - 1));
    }
}

/// The names along a staging file's name below the staging directory.
proof fn lemma_name_names(stamp: Seq<char>, source: Seq<char>, k: nat)
    requires
        clock::is_file_stamp(stamp),
    ensures
        ({
            let p = pieces::pieces(source, '/');
            let all = path::names(numbered_name(stamp, source, k));
            let head = stamp.push('_') + p[0];
            let tail = p.last() + name_end(k);
            let middle = p.subrange(1, p.len() - 1).filter(|piece: Seq<char>| path::is_name(piece));
            &&& p.len() >= 1
            &&& p.len() == 1 ==> all == seq![head + name_end(k)]
            &&& p.len() > 1 ==> all == (seq![head] + middle).push(tail)
        }),
        !path::is_absolute(numbered_name(stamp, source, k)),
{
    let p = pieces::pieces(source, '/');
    let head = stamp.push('_') + p[0];
    let tail = p.last() + name_end(k);
    let keep = |piece: Seq<char>| path::is_name(piece);
    lemma_name_parts(stamp, source, k);
    lemma_name_pieces(stamp, source, k);
    assert(seq!['.'].len() == 1);
    let name = numbered_name(stamp, source, k);
    assert(name[0] == stamp[0]);
    assert(stamp.push('_').contains(stamp.push('_')[0]));
    if p.len() == 1 {
        let one = head + name_end(k);
        reveal_with_fuel(Seq::filter, 2);
        assert(seq![one].drop_last() =~= Seq::<Seq<char>>::empty());
        assert(path::names(name) =~= seq![one]);
    } else {
        let inner = p.subrange(1, p.len() - 1);
        let front = seq![head] + inner;
        Seq::filter_distributes_over_add(seq![head], inner, keep);
        assert(seq![head].filter(keep) =~= seq![head]) by {
            reveal_with_fuel(Seq::filter, 2);
            assert(seq![head].drop_last() =~= Seq::<Seq<char>>::empty());
        }
        assert(front.push(tail).drop_last() =~= front);
        reveal_with_fuel(Seq::filter, 1);
        assert(keep(tail));
        assert(front.push(tail).filter(keep) == front.filter(keep).push(tail));
    }
}

/// Every capture lands in the staging directory: whatever the source, the time
/// and the number, a staging file lies below it. Of a source in which a piece
/// between slashes is `..` this says how the path reads, not where it leads.
pub proof fn law_staging_file_is_within_staging_dir(
    root: Seq<char>,
    stamp: Seq<char>,
    source: Seq<char>,
    k: nat,
)
    requires
        clock::is_file_stamp(stamp),
    ensures
        path::is_within(
            staging_path(root),
            path::joined(staging_path(root), numbered_name(stamp, source, k)),
        ),
        path::components(path::joined(staging_path(root), numbered_name(stamp, source, k)))
            == path::components(staging_path(root)) + path::names(numbered_name(stamp, source, k)),
        path::names(numbered_name(stamp, source, k)).len() >= 1,
{
    lemma_name_names(stamp, source, k);
    reveal_strlit("training-data/staging");
    path::law_join_appends(staging_path(root), numbered_name(stamp, source, k));
}

/// For a source that does not go up, the way from the staging directory to a
/// staging file does not either: the path also leads into the staging directory.
pub proof fn law_staging_file_does_not_climb(stamp: Seq<char>, source: Seq<char>, k: nat)
    requires
        clock::is_file_stamp(stamp),
        !path::is_climbing(source),
    ensures
        !path::names(numbered_name(stamp, source, k)).contains(seq!['.', '.']),
{
    let up = seq!['.', '.'];
    assert(up.len() == 2);
    assert(seq!['.'].len() == 1);
    let p = pieces::pieces(source, '/');
    let keep = |piece: Seq<char>| path::is_name(piece);
    let all = path::names(numbered_name(stamp, source, k));
    lemma_name_names(stamp, source, k);
    lemma_name_parts(stamp, source, k);
    if all.contains(up) {
        let i = choose|i: int| 0 <= i < all.len() && all[i] == up;
        assert(all[0].len() > 2 && all.last().len() > 2);
        let inner = p.subrange(1, p.len() - 1);
        let middle = inner.filter(keep);
        assert(middle[i - 1] == up);
        path::lemma_filter_from(inner, keep, i - 1);
        let j = choose|j: int| 0 <= j < inner.len() && inner[j] == up;
        assert(p[j + 1] == up);
        assert(keep(p[j + 1]));
        p.lemma_filter_contains(keep, j + 1);
        assert(path::names(source).contains(up));
        let m = choose|m: int| 0 <= m < path::names(source).len() && path::names(source)[m] == up;
        assert(path::components(source)[path::lead(source).len() + m] == up);
    }
}

/// A staging file for a source without a slash lies directly in the staging
/// directory, whatever the time and the number, under the name that tells them
/// and the source.
pub proof fn law_staging_file_is_in_staging_dir(
    root: Seq<char>,
    stamp: Seq<char>,
    source: Seq<char>,
    k: nat,
)
    requires
        clock::is_file_stamp(stamp),
        !source.contains('/'),
    ensures
        path::components(path::joined(staging_path(root), numbered_name(stamp, source, k)))
            == path::components(staging_path(root)).push(numbered_name(stamp, source, k)),
        path::file_name_of(path::joined(staging_path(root), numbered_name(stamp, source, k)))
            == Some(numbered_name(stamp, source, k)),
{
    let name = numbered_name(stamp, source, k);
    lemma_name_parts(stamp, source, k);
    assert forall|i: int| 0 <= i < name.len() implies name[i] != '/' by {
        let n = stamp.len() as int + 1;
        if i < n {
            assert(name[i] == stamp.push('_')[i]);
        } else if i < n + source.len() {
            assert(name[i] == source[i - n]);
        } else {
            assert(name[i] == name_end(k)[i - n - source.len()]);
        }
    }
    assert(name.len() > 2);
    assert(seq!['.'].len() == 1);
    assert(seq!['.', '.'].len() == 2);
    path::law_join_file(staging_path(root), name);
}

/// No capture touches the master file: whatever the source, the time and the
/// number, a staging file is another file than the master file. Of a source in
/// which a piece between slashes is `..` this says how the path reads, not where
/// it leads.
pub proof fn law_staging_is_not_master(
    root: Seq<char>,
    stamp: Seq<char>,
    source: Seq<char>,
    k: nat,
)
    requires
        clock::is_file_stamp(stamp),
    ensures
        path::components(path::joined(staging_path(root), numbered_name(stamp, source, k)))
            != path::components(master_path(root)),
{
    law_layout_is_below_root(root);
    law_staging_file_is_within_staging_dir(root, stamp, source, k);
}

proof fn lemma_files_differ(
    root: Seq<char>,
    stamp_a: Seq<char>,
    a: nat,
    stamp_b: Seq<char>,
    b: nat,
    source: Seq<char>,
)
    requires
        clock::is_file_stamp(stamp_a),
        clock::is_file_stamp(stamp_b),
        numbered_name(stamp_a, source, a) != numbered_name(stamp_b, source, b),
    ensures
        path::components(path::joined(staging_path(root), numbered_name(stamp_a, source, a)))
            != path::components(path::joined(staging_path(root), numbered_name(stamp_b, source, b))),
{
    let x = path::names(numbered_name(stamp_a, source, a));
    let y = path::names(numbered_name(stamp_b, source, b));
    let p = pieces::pieces(source, '/');
    let dir = path::components(staging_path(root));
    law_staging_file_is_within_staging_dir(root, stamp_a, source, a);
    law_staging_file_is_within_staging_dir(root, stamp_b, source, b);
    lemma_name_names(stamp_a, source, a);
    lemma_name_names(stamp_b, source, b);
    lemma_name_parts(stamp_a, source, a);
    lemma_name_parts(stamp_b, source, b);
    if dir + x == dir + y {
        assert(x =~= (dir + x).skip(dir.len() as int));
        assert(y =~= (dir + y).skip(dir.len() as int));
        if p.len() == 1 {
            lemma_single_piece(source);
            assert(x[0] == y[0]);
        } else {
            let head_a = stamp_a.push('_') + p[0];
            let head_b = stamp_b.push('_') + p[0];
            assert(x[0] == head_a && y[0] == head_b);
            assert(stamp_a.push('_') =~= head_a.take(head_a.len() - p[0].len()));
            assert(stamp_b.push('_') =~= head_b.take(head_b.len() - p[0].len()));
            let tail_a = p.last() + name_end(a);
            let tail_b = p.last() + name_end(b);
            assert(x.last() == tail_a && y.last() == tail_b);
            assert(name_end(a) =~= tail_a.skip(p.last().len() as int));
            assert(name_end(b) =~= tail_b.skip(p.last().len() as int));
        }
    }
}

proof fn lemma_single_piece(source: Seq<char>)
    requires
        pieces::pieces(source, '/').len() == 1,
    ensures
        pieces::pieces(source, '/')[0] == source,
    decreases source.len(),
{
    if source.len() > 0 {
        let front = source.drop_last();
        pieces::lemma_pieces(front, '/');
        lemma_single_piece(front);
        assert(front.push(source.last()) =~= source);
    } else {
        assert(source =~= Seq::<char>::empty());
    }
}

/// Captures land in different files: where each gets the first name that is not
/// taken, and the names of those before it are taken, all names differ; and so do
/// the files of captures from one source, or from sources without a slash.
pub proof fn law_captures_land_apart(
    root: Seq<char>,
    stamps: Seq<Seq<char>>,
    sources: Seq<Seq<char>>,
    taken: Seq<Seq<Seq<char>>>,
    names: Seq<Seq<char>>,
)
    requires
        stamps.len() == names.len(),
        sources.len() == names.len(),
        taken.len() == names.len(),
        forall|i: int|
            0 <= i < names.len() ==> clock::is_file_stamp(#[trigger] stamps[i]) && is_fresh_name(
                stamps[i],
                sources[i],
                taken[i],
                names[i],
            ),
        forall|i: int, j: int|
            0 <= i < j < names.len() ==> (#[trigger] taken[j]).contains(#[trigger] names[i]),
    ensures
        names.no_duplicates(),
        forall|i: int, j: int|
            0 <= i < j < names.len() && (sources[i] == sources[j] || (!sources[i].contains('/')
                && !sources[j].contains('/'))) ==> path::components(
                path::joined(staging_path(root), #[trigger] names[i]),
            ) != path::components(path::joined(staging_path(root), #[trigger] names[j])),
{
    assert forall|i: int, j: int| 0 <= i < j < names.len() implies names[i] != names[j] by {
        assert(clock::is_file_stamp(stamps[j]));
        assert(taken[j].contains(names[i]));
    }
    assert forall|i: int, j: int|
        0 <= i < j < names.len() && (sources[i] == sources[j] || (!sources[i].contains('/')
            && !sources[j].contains('/'))) implies path::components(
        path::joined(staging_path(root), #[trigger] names[i]),
    ) != path::components(path::joined(staging_path(root), #[trigger] names[j])) by {
        assert(clock::is_file_stamp(stamps[i]));
        assert(clock::is_file_stamp(stamps[j]));
        let a = lemma_number_of(stamps[i], sources[i], taken[i], names[i]);
        let b = lemma_number_of(stamps[j], sources[j], taken[j], names[j]);
        if sources[i] == sources[j] {
            lemma_files_differ(root, stamps[i], a, stamps[j], b, sources[i]);
        } else {
            law_staging_file_is_in_staging_dir(root, stamps[i], sources[i], a);
            law_staging_file_is_in_staging_dir(root, stamps[j], sources[j], b);
            let dir = path::components(staging_path(root));
            assert(dir.push(names[i]).last() != dir.push(names[j]).last());
        }
    }
}

/// The number in a name that is not taken.
pub(crate) proof fn lemma_number_of(
    stamp: Seq<char>,
    source: Seq<char>,
    taken: Seq<Seq<char>>,
    name: Seq<char>,
) -> (k: nat)
    requires
        is_fresh_name(stamp, source, taken, name),
    ensures
        name == numbered_name(stamp, source, k),
{
    choose|k: nat|
        {
            &&& name == #[trigger] numbered_name(stamp, source, k)
            &&& forall|j: nat| j < k ==> taken.contains(#[trigger] numbered_name(stamp, source, j))
        }
}

/// A staging file is named after the time and the source; where that name is
/// taken, the smallest number whose name is not stands behind the source. The
/// file lies in the staging directory.
pub proof fn law_fresh_file(
    root: Seq<char>,
    stamp: Seq<char>,
    source: Seq<char>,
    taken: Seq<Seq<char>>,
    file: Seq<char>,
)
    requires
        is_fresh_file(root, stamp, source, taken, file),
    ensures
        ({
            let plain = stamp + seq!['_'] + source + ".jsonl"@;
            let dir = path::joined(root, "training-data/staging"@);
            &&& !taken.contains(plain) ==> file == path::joined(dir, plain)
            &&& taken.contains(plain) ==> exists|k: nat|
                {
                    let name = stamp + seq!['_'] + source + seq!['-'] + #[trigger] number::decimal(
                        k,
                    ) + ".jsonl"@;
                    &&& k > 0
                    &&& file == path::joined(dir, name)
                    &&& !taken.contains(name)
                    &&& forall|j: nat|
                        0 < j < k ==> taken.contains(
                            stamp + seq!['_'] + source + seq!['-'] + #[trigger] number::decimal(j)
                                + ".jsonl"@,
                        )
                }
        }),
{
    let name = choose|name: Seq<char>| #[trigger]
        is_fresh_name(stamp, source, taken, name) && file == path::joined(staging_path(root), name);
    let k = choose|k: nat|
        {
            &&& name == #[trigger] numbered_name(stamp, source, k)
            &&& forall|j: nat| j < k ==> taken.contains(#[trigger] numbered_name(stamp, source, j))
        };
    let plain = stamp + seq!['_'] + source + ".jsonl"@;
    assert(numbered_name(stamp, source, 0) == plain);
    if k > 0 {
        assert forall|j: nat| 0 < j < k implies taken.contains(
            stamp + seq!['_'] + source + seq!['-'] + #[trigger] number::decimal(j) + ".jsonl"@,
        ) by {
            assert(taken.contains(numbered_name(stamp, source, j)));
        }
        assert(name == stamp + seq!['_'] + source + seq!['-'] + number::decimal(k) + ".jsonl"@);
    }
}

} // verus!
