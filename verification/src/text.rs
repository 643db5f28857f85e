//! Text helpers: searching, white space, words, joined lines.

use vstd::prelude::*;

verus! {

/// Appends one character (`String::push` of the standard library): the text
/// grows by exactly that character, at its end.
pub assume_specification[ String::push ](s: &mut String, c: char)
    ensures
        final(s)@ == old(s)@.push(c),
;

/// The characters of `s`, in order.
pub fn chars_of(s: &str) -> (chars: Vec<char>)
    ensures
        chars@ == s@,
{
    let mut out: Vec<char> = Vec::new();
    for c in it: s.chars()
        invariant
            it.seq() == s@,
            out@ == s@.take(it.index() as int),
    {
        out.push(c);
    }
    out
}

/// The characters `from..to` of `chars` as a string.
pub fn text_of(chars: &Vec<char>, from: usize, to: usize) -> (s: String)
    requires
        from <= to <= chars@.len(),
    ensures
        s@ == chars@.subrange(from as int, to as int),
{
    let mut out = String::new();
    let mut i: usize = from;
    while i < to
        invariant
            from <= i <= to <= chars@.len(),
            out@ == chars@.subrange(from as int, i as int),
        decreases to - i,
    {
        out.push(chars[i]);
        i += 1;
    }
    out
}

/// Whether two strings hold the same characters.
pub fn same_text(a: &str, b: &str) -> (same: bool)
    ensures
        same == (a@ == b@),
{
    a.to_owned() == b.to_owned()
}

/// What an optional string holds.
pub open spec fn optional(s: Option<String>) -> Option<Seq<char>> {
    match s {
        Some(t) => Some(t@),
        None => None,
    }
}

// ---------------------------------------------------------------------------
// Parts of a text
// ---------------------------------------------------------------------------

/// Whether `s` begins with `part`.
pub open spec fn begins_with(s: Seq<char>, part: Seq<char>) -> bool {
    s.len() >= part.len() && s.take(part.len() as int) == part
}

/// Whether `s` ends with `part`.
pub open spec fn ends_with(s: Seq<char>, part: Seq<char>) -> bool {
    s.len() >= part.len() && s.skip(s.len() - part.len()) == part
}

/// Whether `part` occurs in `s`.
pub open spec fn holds(s: Seq<char>, part: Seq<char>) -> bool
    decreases s.len(),
{
    begins_with(s, part) || (s.len() > 0 && holds(s.drop_first(), part))
}

/// Whether `part` stands in `s` from position `at` on.
pub fn stands_at(s: &Vec<char>, at: usize, part: &Vec<char>) -> (yes: bool)
    requires
        at <= s@.len(),
    ensures
        yes == begins_with(s@.skip(at as int), part@),
        yes == (at + part@.len() <= s@.len() && s@.subrange(at as int, at + part@.len()) == part@),
{
    let ghost rest = s@.skip(at as int);
    let n: usize = s.len();
    if n - at < part.len() {
        return false;
    }
    let mut i: usize = 0;
    while i < part.len()
        invariant
            i <= part@.len() <= n - at,
            at <= n,
            n == s@.len(),
            rest == s@.skip(at as int),
            forall|j: int| 0 <= j < i ==> rest[j] == #[trigger] part@[j],
        decreases part@.len() - i,
    {
        if s[at + i] != part[i] {
            assert(rest.take(part@.len() as int)[i as int] != part@[i as int]);
            assert(s@.subrange(at as int, at + part@.len())[i as int] != part@[i as int]);
            return false;
        }
        i += 1;
    }
    assert(rest.take(part@.len() as int) =~= part@);
    assert(s@.subrange(at as int, at + part@.len()) =~= part@);
    true
}

/// Whether `part` occurs in `s`.
pub fn contains(s: &Vec<char>, part: &Vec<char>) -> (yes: bool)
    ensures
        yes == holds(s@, part@),
{
    let mut at: usize = 0;
    assert(s@.skip(0) =~= s@);
    loop
        invariant
            at <= s@.len(),
            holds(s@, part@) == holds(s@.skip(at as int), part@),
        decreases s@.len() - at,
    {
        if stands_at(s, at, part) {
            return true;
        }
        if at == s.len() {
            return false;
        }
        assert(s@.skip(at as int).drop_first() =~= s@.skip(at + 1));
        at += 1;
    }
}

/// Whether `c` occurs in `s`.
pub fn has_char(s: &Vec<char>, c: char) -> (yes: bool)
    ensures
        yes == s@.contains(c),
{
    let mut i: usize = 0;
    while i < s.len()
        invariant
            i <= s@.len(),
            forall|j: int| 0 <= j < i ==> s@[j] != c,
        decreases s@.len() - i,
    {
        if s[i] == c {
            return true;
        }
        i += 1;
    }
    false
}

// ---------------------------------------------------------------------------
// White space and words
// ---------------------------------------------------------------------------

/// Unicode's `White_Space` property.
pub open spec fn is_white_space(c: char) -> bool {
    ||| '\u{9}' <= c <= '\u{d}'
    ||| c == '\u{20}'
    ||| c == '\u{85}'
    ||| c == '\u{a0}'
    ||| c == '\u{1680}'
    ||| '\u{2000}' <= c <= '\u{200a}'
    ||| c == '\u{2028}'
    ||| c == '\u{2029}'
    ||| c == '\u{202f}'
    ||| c == '\u{205f}'
    ||| c == '\u{3000}'
}

/// Whether `c` is white space.
pub fn white_space(c: char) -> (yes: bool)
    ensures
        yes == is_white_space(c),
        yes == ('\u{9}' <= c <= '\u{d}' || c == '\u{20}' || c == '\u{85}' || c == '\u{a0}' || c
            == '\u{1680}' || '\u{2000}' <= c <= '\u{200a}' || c == '\u{2028}' || c == '\u{2029}' || c
            == '\u{202f}' || c == '\u{205f}' || c == '\u{3000}'),
{
    ('\u{9}' <= c && c <= '\u{d}') || c == '\u{20}' || c == '\u{85}' || c == '\u{a0}' || c
        == '\u{1680}' || ('\u{2000}' <= c && c <= '\u{200a}') || c == '\u{2028}' || c == '\u{2029}'
        || c == '\u{202f}' || c == '\u{205f}' || c == '\u{3000}'
}

/// Whether every character of `s` is white space.
pub open spec fn is_blank(s: Seq<char>) -> bool {
    forall|i: int| 0 <= i < s.len() ==> is_white_space(#[trigger] s[i])
}

/// Whether `s` holds no white space at all.
pub open spec fn is_solid(s: Seq<char>) -> bool {
    forall|i: int| 0 <= i < s.len() ==> !is_white_space(#[trigger] s[i])
}

/// `s` without its leading white space.
pub open spec fn trimmed_start(s: Seq<char>) -> Seq<char>
    decreases s.len(),
{
    if s.len() > 0 && is_white_space(s[0]) {
        trimmed_start(s.drop_first())
    } else {
        s
    }
}

/// `s` without its trailing white space.
pub open spec fn trimmed_end(s: Seq<char>) -> Seq<char>
    decreases s.len(),
{
    if s.len() > 0 && is_white_space(s.last()) {
        trimmed_end(s.drop_last())
    } else {
        s
    }
}

/// `s` without its leading and trailing white space.
pub open spec fn trimmed(s: Seq<char>) -> Seq<char> {
    trimmed_end(trimmed_start(s))
}

/// How many characters stand before the first white space.
pub open spec fn solid_len(s: Seq<char>) -> nat
    decreases s.len(),
{
    if s.len() > 0 && !is_white_space(s[0]) {
        1 + solid_len(s.drop_first())
    } else {
        0
    }
}

proof fn lemma_solid_len(s: Seq<char>)
    ensures
        solid_len(s) <= s.len(),
        is_solid(s.take(solid_len(s) as int)),
        solid_len(s) < s.len() ==> is_white_space(s[solid_len(s) as int]),
    decreases s.len(),
{
    if s.len() > 0 && !is_white_space(s[0]) {
        let rest = s.drop_first();
        lemma_solid_len(rest);
        let n = solid_len(s) as int;
        assert forall|i: int| 0 <= i < n implies !is_white_space(#[trigger] s.take(n)[i]) by {
            if i > 0 {
                assert(rest.take(n - 1)[i - 1] == s[i]);
            }
        }
    }
}

/// A run of `n` solid characters, ended by white space or by the end of the
/// text, is what stands before the first white space.
proof fn lemma_solid_len_is(s: Seq<char>, n: int)
    requires
        0 <= n <= s.len(),
        forall|i: int| 0 <= i < n ==> !is_white_space(#[trigger] s[i]),
        n < s.len() ==> is_white_space(s[n]),
    ensures
        solid_len(s) == n,
    decreases s.len(),
{
    if n > 0 {
        let rest = s.drop_first();
        assert forall|i: int| 0 <= i < n - 1 implies !is_white_space(#[trigger] rest[i]) by {
            assert(rest[i] == s[i + 1]);
        }
        lemma_solid_len_is(rest, n - 1);
    }
}

proof fn lemma_trimmed_start(s: Seq<char>)
    ensures
        trimmed_start(s).len() <= s.len(),
        trimmed_start(s) == s.skip(s.len() - trimmed_start(s).len()),
        is_blank(s.take(s.len() - trimmed_start(s).len())),
        trimmed_start(s).len() > 0 ==> !is_white_space(trimmed_start(s)[0]),
    decreases s.len(),
{
    if s.len() > 0 && is_white_space(s[0]) {
        let rest = s.drop_first();
        lemma_trimmed_start(rest);
        let n = s.len() - trimmed_start(s).len();
        assert(s.skip(n) =~= rest.skip(n - 1));
        assert forall|i: int| 0 <= i < n implies is_white_space(#[trigger] s.take(n)[i]) by {
            if i > 0 {
                assert(rest.take(n - 1)[i - 1] == s[i]);
            }
        }
    } else {
        assert(s.skip(0) =~= s);
    }
}

/// The words of `s`: its longest runs of characters that are not white space,
/// from left to right.
pub open spec fn words(s: Seq<char>) -> Seq<Seq<char>>
    decreases s.len(),
    via words_decreases
{
    let t = trimmed_start(s);
    if t.len() == 0 {
        Seq::empty()
    } else {
        seq![t.take(solid_len(t) as int)] + words(t.skip(solid_len(t) as int))
    }
}

#[via_fn]
proof fn words_decreases(s: Seq<char>) {
    lemma_trimmed_start(s);
    lemma_solid_len(trimmed_start(s));
}

/// Leading white space makes no word.
pub proof fn lemma_words_trimmed_start(s: Seq<char>)
    ensures
        words(trimmed_start(s)) == words(s),
{
    let t = trimmed_start(s);
    lemma_trimmed_start(s);
    assert(trimmed_start(t) == t);
}

/// Trailing white space makes no word.
pub proof fn lemma_words_push_white_space(s: Seq<char>, c: char)
    requires
        is_white_space(c),
    ensures
        words(s.push(c)) == words(s),
    decreases s.len(),
{
    let t = trimmed_start(s);
    lemma_trimmed_start(s);
    lemma_trimmed_start_push(s, c);
    if t.len() > 0 {
        let n = solid_len(t) as int;
        lemma_solid_len(t);
        assert forall|i: int| 0 <= i < n implies !is_white_space(#[trigger] t.push(c)[i]) by {
            assert(t.take(n)[i] == t[i]);
        }
        lemma_solid_len_is(t.push(c), n);
        assert(t.push(c).take(n) =~= t.take(n));
        assert(t.push(c).skip(n) =~= t.skip(n).push(c));
        lemma_words_push_white_space(t.skip(n), c);
    }
}

proof fn lemma_trimmed_start_push(s: Seq<char>, c: char)
    requires
        is_white_space(c),
    ensures
        trimmed_start(s).len() == 0 ==> trimmed_start(s.push(c)).len() == 0,
        trimmed_start(s).len() > 0 ==> trimmed_start(s.push(c)) == trimmed_start(s).push(c),
    decreases s.len(),
{
    if s.len() == 0 {
        assert(s.push(c).drop_first() =~= Seq::<char>::empty());
        reveal_with_fuel(trimmed_start, 2);
    } else if is_white_space(s[0]) {
        assert(s.push(c).drop_first() =~= s.drop_first().push(c));
        lemma_trimmed_start_push(s.drop_first(), c);
    }
}

/// Trimming keeps the words.
pub proof fn lemma_words_trimmed(s: Seq<char>)
    ensures
        words(trimmed(s)) == words(s),
{
    lemma_words_trimmed_start(s);
    lemma_words_trimmed_end(trimmed_start(s));
}

proof fn lemma_words_trimmed_end(s: Seq<char>)
    ensures
        words(trimmed_end(s)) == words(s),
    decreases s.len(),
{
    if s.len() > 0 && is_white_space(s.last()) {
        lemma_words_trimmed_end(s.drop_last());
        lemma_words_push_white_space(s.drop_last(), s.last());
        assert(s.drop_last().push(s.last()) =~= s);
    }
}

/// A solid, non-empty text followed by white space or by nothing is the first
/// word, and the words of what follows are the others.
pub proof fn lemma_words_first(word: Seq<char>, rest: Seq<char>)
    requires
        word.len() > 0,
        is_solid(word),
        rest.len() > 0 ==> is_white_space(rest[0]),
    ensures
        words(word + rest) == seq![word] + words(rest),
{
    let s = word + rest;
    assert(s[0] == word[0]);
    assert forall|i: int| 0 <= i < word.len() implies !is_white_space(#[trigger] s[i]) by {
        assert(s[i] == word[i]);
    }
    lemma_solid_len_is(s, word.len() as int);
    assert(s.take(word.len() as int) =~= word);
    assert(s.skip(word.len() as int) =~= rest);
}

/// Leading white space of any length makes no word.
pub proof fn lemma_words_skip_blank(gap: Seq<char>, rest: Seq<char>)
    requires
        is_blank(gap),
    ensures
        words(gap + rest) == words(rest),
    decreases gap.len(),
{
    if gap.len() == 0 {
        assert(gap + rest =~= rest);
    } else {
        assert(is_white_space(gap[0]));
        assert((gap + rest).drop_first() =~= gap.drop_first() + rest);
        assert forall|i: int| 0 <= i < gap.drop_first().len() implies is_white_space(
            #[trigger] gap.drop_first()[i],
        ) by {
            assert(gap.drop_first()[i] == gap[i + 1]);
        }
        lemma_words_skip_blank(gap.drop_first(), rest);
        lemma_words_trimmed_start((gap + rest).drop_first());
        lemma_words_trimmed_start(gap + rest);
    }
}

/// Every word is solid and not empty.
pub proof fn lemma_words_are_solid(s: Seq<char>)
    ensures
        forall|i: int|
            0 <= i < words(s).len() ==> (#[trigger] words(s)[i]).len() > 0 && is_solid(words(s)[i]),
    decreases s.len(),
{
    let t = trimmed_start(s);
    lemma_trimmed_start(s);
    if t.len() > 0 {
        lemma_solid_len(t);
        let n = solid_len(t) as int;
        lemma_words_are_solid(t.skip(n));
        assert forall|i: int| 0 <= i < words(s).len() implies (#[trigger] words(s)[i]).len() > 0
            && is_solid(words(s)[i]) by {
            if i > 0 {
                assert(words(s)[i] == words(t.skip(n))[i - 1]);
            }
        }
    }
}

/// A text has no word exactly when it is blank, and so does its trimmed text
/// then have no character.
pub proof fn lemma_blank(s: Seq<char>)
    ensures
        is_blank(s) <==> words(s).len() == 0,
        is_blank(s) <==> trimmed(s).len() == 0,
{
    let t = trimmed_start(s);
    lemma_trimmed_start(s);
    let n = s.len() - t.len();
    if t.len() > 0 {
        assert(s[n] == t[0]);
        lemma_trimmed_end_keeps(t);
    } else {
        assert(s.take(n) =~= s);
    }
}

proof fn lemma_trimmed_end_keeps(s: Seq<char>)
    requires
        s.len() > 0,
        !is_white_space(s[0]),
    ensures
        trimmed_end(s).len() > 0,
        trimmed_end(s)[0] == s[0],
    decreases s.len(),
{
    if is_white_space(s.last()) {
        lemma_trimmed_end_keeps(s.drop_last());
    }
}

/// Trimming drops leading white space and keeps the first character after it.
pub proof fn lemma_trimmed_skip_blank(gap: Seq<char>, rest: Seq<char>)
    requires
        is_blank(gap),
        rest.len() > 0,
        !is_white_space(rest[0]),
    ensures
        trimmed(gap + rest).len() > 0,
        trimmed(gap + rest)[0] == rest[0],
    decreases gap.len(),
{
    if gap.len() == 0 {
        assert(gap + rest =~= rest);
        lemma_trimmed_end_keeps(rest);
    } else {
        assert(is_white_space(gap[0]));
        assert((gap + rest).drop_first() =~= gap.drop_first() + rest);
        assert forall|i: int| 0 <= i < gap.drop_first().len() implies is_white_space(
            #[trigger] gap.drop_first()[i],
        ) by {
            assert(gap.drop_first()[i] == gap[i + 1]);
        }
        lemma_trimmed_skip_blank(gap.drop_first(), rest);
    }
}

/// What each string of a list holds.
pub open spec fn texts(list: Seq<String>) -> Seq<Seq<char>> {
    list.map_values(|s: String| s@)
}

/// The texts of a list, one after the other.
pub open spec fn concatenated(parts: Seq<Seq<char>>) -> Seq<char>
    decreases parts.len(),
{
    if parts.len() == 0 {
        Seq::empty()
    } else {
        concatenated(parts.drop_last()) + parts.last()
    }
}

/// The texts of a list with `sep` between them.
pub open spec fn joined_by(parts: Seq<Seq<char>>, sep: char) -> Seq<char>
    decreases parts.len(),
{
    if parts.len() == 0 {
        Seq::empty()
    } else if parts.len() == 1 {
        parts[0]
    } else {
        joined_by(parts.drop_last(), sep).push(sep) + parts.last()
    }
}

/// The first `n` characters of `s`, or all of them.
pub open spec fn first_chars(s: Seq<char>, n: nat) -> Seq<char> {
    if s.len() <= n {
        s
    } else {
        s.take(n as int)
    }
}

/// The first `n` characters of `s`, or all of them.
pub fn head(s: &str, n: usize) -> (t: String)
    ensures
        t@ == first_chars(s@, n as nat),
        t@ == if s@.len() <= n {
            s@
        } else {
            s@.take(n as int)
        },
{
    let chars = chars_of(s);
    let to: usize = if chars.len() <= n {
        chars.len()
    } else {
        n
    };
    assert(chars@.subrange(0, to as int) =~= first_chars(s@, n as nat));
    text_of(&chars, 0, to)
}

/// Whether `s` is blank.
pub fn blank(s: &str) -> (yes: bool)
    ensures
        yes == is_blank(s@),
        yes == forall|i: int| 0 <= i < s@.len() ==> is_white_space(#[trigger] s@[i]),
{
    let chars = chars_of(s);
    let mut i: usize = 0;
    while i < chars.len()
        invariant
            i <= chars@.len(),
            chars@ == s@,
            forall|j: int| 0 <= j < i ==> is_white_space(#[trigger] s@[j]),
        decreases chars@.len() - i,
    {
        if !white_space(chars[i]) {
            return false;
        }
        i += 1;
    }
    true
}

/// `s` without its leading and trailing white space.
pub fn trim(s: &str) -> (t: String)
    ensures
        t@ == trimmed(s@),
{
    let chars = chars_of(s);
    let mut from: usize = 0;
    assert(chars@.skip(0) =~= chars@);
    while from < chars.len() && white_space(chars[from])
        invariant
            from <= chars@.len(),
            trimmed_start(chars@.skip(from as int)) == trimmed_start(chars@),
        decreases chars@.len() - from,
    {
        assert(chars@.skip(from as int).drop_first() =~= chars@.skip(from + 1));
        from += 1;
    }
    let ghost t = chars@.skip(from as int);
    let mut to: usize = chars.len();
    assert(t =~= chars@.subrange(from as int, to as int));
    while to > from && white_space(chars[to - 1])
        invariant
            from <= to <= chars@.len(),
            trimmed_end(chars@.subrange(from as int, to as int)) == trimmed_end(t),
        decreases to,
    {
        assert(chars@.subrange(from as int, to as int).drop_last() =~= chars@.subrange(
            from as int,
            to - 1,
        ));
        to -= 1;
    }
    text_of(&chars, from, to)
}

/// The words of `s`, from left to right.
pub fn split_words(s: &str) -> (list: Vec<String>)
    ensures
        texts(list@) == words(s@),
        list@.map_values(|w: String| w@) == words(s@),
{
    let chars = chars_of(s);
    let mut out: Vec<String> = Vec::new();
    let mut i: usize = 0;
    assert(chars@.skip(0) =~= chars@);
    while i < chars.len()
        invariant
            i <= chars@.len(),
            chars@ == s@,
            texts(out@) + words(chars@.skip(i as int)) == words(s@),
        decreases chars@.len() - i,
    {
        let ghost here = chars@.skip(i as int);
        if white_space(chars[i]) {
            proof {
                lemma_words_skip_blank(here.take(1), here.skip(1));
                assert(here.take(1) + here.skip(1) =~= here);
                assert(here.skip(1) =~= chars@.skip(i + 1));
            }
            i += 1;
        } else {
            let start: usize = i;
            while i < chars.len() && !white_space(chars[i])
                invariant
                    start <= i <= chars@.len(),
                    forall|j: int| start <= j < i ==> !is_white_space(#[trigger] chars@[j]),
                decreases chars@.len() - i,
            {
                i += 1;
            }
            let word = text_of(&chars, start, i);
            proof {
                assert(word@ + chars@.skip(i as int) =~= here);
                lemma_words_first(word@, chars@.skip(i as int));
                assert(texts(out@.push(word)) =~= texts(out@).push(word@));
                assert(texts(out@) + (seq![word@] + words(chars@.skip(i as int))) =~= texts(
                    out@,
                ).push(word@) + words(chars@.skip(i as int)));
            }
            out.push(word);
        }
    }
    proof {
        assert(chars@.skip(i as int) =~= Seq::<char>::empty());
        assert(texts(out@) + Seq::<Seq<char>>::empty() =~= texts(out@));
    }
    out
}

/// A text is its trimmed text with white space before and behind it, and the
/// trimmed text neither begins nor ends with white space.
pub proof fn law_trimmed(s: Seq<char>)
    ensures
        exists|before: Seq<char>, after: Seq<char>|
            {
                &&& s == #[trigger] (before + trimmed(s) + after)
                &&& forall|i: int| 0 <= i < before.len() ==> is_white_space(#[trigger] before[i])
                &&& forall|i: int| 0 <= i < after.len() ==> is_white_space(#[trigger] after[i])
            },
        trimmed(s).len() > 0 ==> !is_white_space(trimmed(s)[0]) && !is_white_space(
            trimmed(s).last(),
        ),
{
    let t = trimmed_start(s);
    let u = trimmed_end(t);
    let before = lemma_leading(s);
    let after = lemma_trailing(t);
    assert(u == trimmed(s));
    assert(s =~= before + trimmed(s) + after);
    if u.len() > 0 {
        assert(u[0] == t[0]);
    }
}

proof fn lemma_leading(s: Seq<char>) -> (before: Seq<char>)
    ensures
        s == before + trimmed_start(s),
        forall|i: int| 0 <= i < before.len() ==> is_white_space(#[trigger] before[i]),
        trimmed_start(s).len() > 0 ==> !is_white_space(trimmed_start(s)[0]),
    decreases s.len(),
{
    if s.len() > 0 && is_white_space(s[0]) {
        let rest = lemma_leading(s.drop_first());
        let before = seq![s[0]] + rest;
        assert(s =~= seq![s[0]] + s.drop_first());
        assert(s =~= before + trimmed_start(s));
        before
    } else {
        assert(s =~= Seq::<char>::empty() + s);
        Seq::empty()
    }
}

proof fn lemma_trailing(s: Seq<char>) -> (after: Seq<char>)
    ensures
        s == trimmed_end(s) + after,
        forall|i: int| 0 <= i < after.len() ==> is_white_space(#[trigger] after[i]),
        trimmed_end(s).len() > 0 ==> !is_white_space(trimmed_end(s).last()),
    decreases s.len(),
{
    if s.len() > 0 && is_white_space(s.last()) {
        let rest = lemma_trailing(s.drop_last());
        let after = rest.push(s.last());
        assert(s =~= s.drop_last().push(s.last()));
        assert(s =~= trimmed_end(s) + after);
        after
    } else {
        assert(s =~= s + Seq::<char>::empty());
        Seq::empty()
    }
}

/// Texts one after the other are the texts flattened.
pub proof fn law_concatenated(parts: Seq<Seq<char>>)
    ensures
        concatenated(parts) == parts.flatten(),
    decreases parts.len(),
{
    parts.lemma_flatten_and_flatten_alt_are_equivalent();
    if parts.len() > 0 {
        law_concatenated(parts.drop_last());
        parts.drop_last().lemma_flatten_and_flatten_alt_are_equivalent();
    }
}

/// A part occurs in a text exactly where it stands at some position of it.
pub proof fn law_holds(s: Seq<char>, part: Seq<char>)
    ensures
        holds(s, part) <==> exists|at: int|
            0 <= at <= s.len() - part.len() && #[trigger] s.subrange(at, at + part.len()) == part,
    decreases s.len(),
{
    if begins_with(s, part) {
        assert(s.subrange(0int, 0int + part.len()) =~= part);
    } else if s.len() > 0 {
        let rest = s.drop_first();
        law_holds(rest, part);
        if holds(rest, part) {
            let at = choose|at: int|
                0 <= at <= rest.len() - part.len() && #[trigger] rest.subrange(at, at + part.len())
                    == part;
            assert(s.subrange(at + 1, at + 1 + part.len()) =~= part);
        }
        if exists|at: int|
            0 <= at <= s.len() - part.len() && #[trigger] s.subrange(at, at + part.len()) == part {
            let at = choose|at: int|
                0 <= at <= s.len() - part.len() && #[trigger] s.subrange(at, at + part.len())
                    == part;
            if at == 0 {
                assert(s.take(part.len() as int) =~= part);
            } else {
                assert(rest.subrange(at - 1, at - 1 + part.len()) =~= part);
            }
        }
    } else {
        if exists|at: int|
            0 <= at <= s.len() - part.len() && #[trigger] s.subrange(at, at + part.len()) == part {
            assert(part.len() == 0);
            assert(s.take(0) =~= part);
        }
    }
}

/// Words are parted by white space and by nothing else: a text without white
/// space is one word, a blank text none, and what stands on either side of white
/// space is split on its own.
pub proof fn law_words(s: Seq<char>, c: char, t: Seq<char>)
    requires
        is_white_space(c),
    ensures
        words(s.push(c) + t) == words(s) + words(t),
        s.len() > 0 && (forall|i: int| 0 <= i < s.len() ==> !is_white_space(#[trigger] s[i]))
            ==> words(s) == seq![s],
        (forall|i: int| 0 <= i < s.len() ==> is_white_space(#[trigger] s[i])) ==> words(s).len()
            == 0,
    decreases s.len(),
{
    lemma_blank(s);
    let u = trimmed_start(s);
    lemma_trimmed_start(s);
    lemma_leading(s);
    if u.len() == 0 {
        assert(trimmed(s).len() == 0);
        assert(is_blank(s));
        let gap = s.push(c);
        lemma_words_skip_blank(gap, t);
        assert(words(s) + words(t) =~= words(t));
    } else {
        let before = lemma_leading(s);
        let n = solid_len(u) as int;
        lemma_solid_len(u);
        let word = u.take(n);
        let rest = u.skip(n);
        lemma_words_trimmed_start(s);
        let full = s.push(c) + t;
        let tail = rest.push(c) + t;
        assert(full =~= before + (word + tail));
        lemma_words_skip_blank(before, word + tail);
        assert(u[0] == word[0]);
        assert(tail[0] == if n < u.len() {
            u[n]
        } else {
            c
        });
        lemma_words_first(word, tail);
        assert(n > 0);
        law_words(rest, c, t);
        assert(trimmed_start(u) == u);
        assert(words(u) == seq![word] + words(rest));
        assert(seq![word] + (words(rest) + words(t)) =~= (seq![word] + words(rest)) + words(t));
        if forall|i: int| 0 <= i < s.len() ==> !is_white_space(#[trigger] s[i]) {
            assert(u == s);
            if n < s.len() {
                assert(is_white_space(s[n]));
            }
            assert(word =~= s);
            assert(rest =~= Seq::<char>::empty());
            lemma_blank(rest);
            assert(words(rest) =~= Seq::<Seq<char>>::empty());
            assert(words(s) =~= seq![s]);
        }
    }
}

pub(crate) proof fn lemma_first_word(t: Seq<char>)
    requires
        t.len() > 0,
        !is_white_space(t[0]),
    ensures
        words(t).len() > 0,
        words(t)[0].len() > 0,
        words(t)[0][0] == t[0],
{
    lemma_solid_len(t);
    assert(trimmed_start(t) == t);
    assert(solid_len(t) > 0);
}

} // verus!
