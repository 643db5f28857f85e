//! Training pairs: what they are made of, how they are merged, and which of them
//! are looked at.

use crate::clock;
use crate::order;
use crate::pieces;
use crate::text;
use crate::utf8;
use crate::whisper;
use sha2::Digest;
use std::collections::hash_map::DefaultHasher;
use std::hash::{Hash, Hasher};
use vstd::hash_set::StringHashSet;
use vstd::prelude::*;
use vstd::std_specs::hash::*;
use vstd::utf8::*;

verus! {

/// One sample of the corpus: what was said, and what was said before it. The
/// mean log-probability is given by the bits of a single-precision number.
#[derive(Debug, Clone, PartialEq, Eq)]
pub struct TrainingPair {
    pub context: String,
    pub matt: String,
    pub source: String,
    pub sha: String,
    pub avg_logprob: Option<u32>,
    pub captured_at: Option<String>,
}

// ---------------------------------------------------------------------------
// The hash that identifies a pair
// ---------------------------------------------------------------------------

/// The SHA-256 digest of a message, as `sha2::Sha256` computes it.
pub uninterp spec fn sha256_digest(message: Seq<u8>) -> Seq<u8>;

/// Hashes a message (`sha2::Sha256::digest`). The digest depends on the message
/// alone and is 32 bytes long.
#[verifier::external_body]
fn sha256(message: &Vec<u8>) -> (digest: Vec<u8>)
    ensures
        digest@ == sha256_digest(message@),
        digest@.len() == 32,
{
    sha2::Sha256::digest(message).to_vec()
}

/// The lower-case hexadecimal digit of `d`.
pub open spec fn hex_digit(d: int) -> char
    recommends
        0 <= d < 16,
{
    if d < 10 {
        (48 + d) as char
    } else {
        (87 + d) as char
    }
}

/// Two lower-case hexadecimal digits for each byte, the high one first.
pub open spec fn hex_text(bytes: Seq<u8>) -> Seq<char> {
    Seq::new(
        2 * bytes.len(),
        |i: int|
            if i % 2 == 0 {
                hex_digit(bytes[i / 2] as int / 16)
            } else {
                hex_digit(bytes[i / 2] as int % 16)
            },
    )
}

/// Writes bytes in hexadecimal (`hex::encode`): two lower-case digits for each
/// byte, the high one first.
#[verifier::external_body]
fn hex_encode(bytes: &Vec<u8>) -> (s: String)
    ensures
        s@ == hex_text(bytes@),
{
    hex::encode(bytes)
}

/// How many characters of the context count for a pair's hash.
pub const HASHED_CONTEXT: usize = 256;

/// What is hashed of a pair: the utterance, a zero byte and the beginning of the
/// context.
pub open spec fn hash_message(matt: Seq<char>, context: Seq<char>) -> Seq<u8> {
    encode_utf8(matt).push(0) + encode_utf8(text::first_chars(context, HASHED_CONTEXT as nat))
}

/// The hash that identifies a pair.
pub open spec fn pair_sha(matt: Seq<char>, context: Seq<char>) -> Seq<char> {
    hex_text(sha256_digest(hash_message(matt, context)))
}

/// What is hashed of a pair.
pub fn message_of(matt: &str, context: &str) -> (message: Vec<u8>)
    ensures
        message@ == hash_message(matt@, context@),
        message@ == encode_utf8(matt@).push(0) + encode_utf8(
            if context@.len() <= 256 {
                context@
            } else {
                context@.take(256)
            },
        ),
{
    let mut message: Vec<u8> = Vec::new();
    message.extend_from_slice(matt.as_bytes());
    assert(message@ =~= encode_utf8(matt@));
    message.push(0);
    let head = text::head(context, HASHED_CONTEXT);
    message.extend_from_slice(head.as_str().as_bytes());
    assert(message@ =~= hash_message(matt@, context@));
    message
}

/// The hash that identifies a pair.
pub fn hash(matt: &str, context: &str) -> (sha: String)
    ensures
        sha@ == pair_sha(matt@, context@),
        sha@.len() == 64,
        sha@ == hex_text(
            sha256_digest(
                encode_utf8(matt@).push(0) + encode_utf8(
                    if context@.len() <= 256 {
                        context@
                    } else {
                        context@.take(256)
                    },
                ),
            ),
        ),
{
    let message = message_of(matt, context);
    let digest = sha256(&message);
    hex_encode(&digest)
}

// ---------------------------------------------------------------------------
// Making pairs
// ---------------------------------------------------------------------------

/// Whether `pair` says `matt` after `context`, taken from `source`.
pub open spec fn is_pair_of(
    pair: TrainingPair,
    context: Seq<char>,
    matt: Seq<char>,
    source: Seq<char>,
) -> bool {
    &&& pair.context@ == context
    &&& pair.matt@ == matt
    &&& pair.source@ == source
    &&& pair.sha@ == pair_sha(matt, context)
}

impl TrainingPair {
    /// A pair that was captured at the given time.
    pub fn captured(context: String, matt: String, source: &str, captured_at: String) -> (pair:
        TrainingPair)
        ensures
            is_pair_of(pair, context@, matt@, source@),
            pair.context@ == context@,
            pair.matt@ == matt@,
            pair.source@ == source@,
            pair.sha@ == pair_sha(matt@, context@),
            pair.avg_logprob is None,
            pair.captured_at == Some(captured_at),
    {
        let sha = hash(&matt, &context);
        TrainingPair {
            context,
            matt,
            source: source.to_owned(),
            sha,
            avg_logprob: None,
            captured_at: Some(captured_at),
        }
    }

    /// A pair that is captured now.
    pub fn new(context: String, matt: String, source: &str) -> (pair: TrainingPair)
        ensures
            is_pair_of(pair, context@, matt@, source@),
            pair.context@ == context@,
            pair.matt@ == matt@,
            pair.source@ == source@,
            pair.sha@ == pair_sha(matt@, context@),
            pair.avg_logprob is None,
            pair.captured_at matches Some(stamp) && clock::is_utc_stamp(stamp@),
    {
        TrainingPair::captured(context, matt, source, clock::now_rfc3339())
    }
}

/// What the utterances of a list say.
pub open spec fn spoken(utts: Seq<whisper::Utterance>) -> Seq<Seq<char>> {
    utts.map_values(|u: whisper::Utterance| u.text@)
}

/// The context of utterance `i`: the utterances before it, at most `window` of
/// them, one per line.
pub open spec fn context_of(utts: Seq<whisper::Utterance>, i: int, window: nat) -> Seq<char> {
    let start = if i >= window {
        i - window
    } else {
        0
    };
    text::joined_by(spoken(utts).subrange(start, i), '\n')
}

/// The context of utterance `i`.
pub fn context_before(utts: &Vec<whisper::Utterance>, i: usize, window: usize) -> (context: String)
    requires
        i <= utts@.len(),
    ensures
        context@ == context_of(utts@, i as int, window as nat),
{
    let start: usize = if i >= window {
        i - window
    } else {
        0
    };
    let ghost said = spoken(utts@);
    let mut context = String::new();
    let mut k: usize = start;
    assert(said.subrange(start as int, start as int) =~= Seq::<Seq<char>>::empty());
    while k < i
        invariant
            start <= k <= i <= utts@.len(),
            said == spoken(utts@),
            context@ == text::joined_by(said.subrange(start as int, k as int), '\n'),
        decreases i - k,
    {
        if k > start {
            context.push('\n');
        }
        context.append(&utts[k].text);
        proof {
            let part = said.subrange(start as int, k + 1);
            assert(part.drop_last() =~= said.subrange(start as int, k as int));
            assert(part.last() == utts@[k as int].text@);
            if k == start {
                assert(Seq::<char>::empty() + part[0] =~= part[0]);
            }
        }
        k += 1;
    }
    context
}

/// Turns utterances into training pairs: each is what was said after the
/// utterances before it.
pub fn utterances_to_pairs(
    utts: &Vec<whisper::Utterance>,
    source: &str,
    context_window: usize,
) -> (pairs: Vec<TrainingPair>)
    ensures
        pairs@.len() == utts@.len(),
        forall|i: int|
            0 <= i < utts@.len() ==> {
                let pair = #[trigger] pairs@[i];
                &&& is_pair_of(
                    pair,
                    context_of(utts@, i, context_window as nat),
                    utts@[i].text@,
                    source@,
                )
                &&& pair.avg_logprob == Some(utts@[i].avg_logprob)
                &&& pair.captured_at matches Some(stamp) && clock::is_utc_stamp(stamp@)
            },
        forall|i: int|
            0 <= i < utts@.len() ==> {
                let pair = #[trigger] pairs@[i];
                &&& pair.context@ == context_of(utts@, i, context_window as nat)
                &&& pair.matt@ == utts@[i].text@
                &&& pair.source@ == source@
                &&& pair.sha@ == pair_sha(pair.matt@, pair.context@)
            },
{
    let mut out: Vec<TrainingPair> = Vec::new();
    let mut i: usize = 0;
    while i < utts.len()
        invariant
            i <= utts@.len(),
            out@.len() == i,
            forall|j: int|
                0 <= j < i ==> {
                    let pair = #[trigger] out@[j];
                    &&& is_pair_of(
                        pair,
                        context_of(utts@, j, context_window as nat),
                        utts@[j].text@,
                        source@,
                    )
                    &&& pair.avg_logprob == Some(utts@[j].avg_logprob)
                    &&& pair.captured_at matches Some(stamp) && clock::is_utc_stamp(stamp@)
                },
        decreases utts@.len() - i,
    {
        let context = context_before(utts, i, context_window);
        let mut pair = TrainingPair::new(context, utts[i].text.clone(), source);
        pair.avg_logprob = Some(utts[i].avg_logprob);
        out.push(pair);
        i += 1;
    }
    out
}

/// How many utterances before it are the context of a captured utterance.
pub const CONTEXT_WINDOW: usize = 2;

/// Whether `pairs` are what the daemon stages of a call: each utterance after the
/// two before it, marked as spoken in a group.
pub open spec fn are_group_pairs(pairs: Seq<TrainingPair>, utts: Seq<whisper::Utterance>) -> bool {
    &&& pairs.len() == utts.len()
    &&& forall|i: int|
        0 <= i < utts.len() ==> {
            let pair = #[trigger] pairs[i];
            &&& is_pair_of(
                pair,
                context_of(utts, i, CONTEXT_WINDOW as nat),
                utts[i].text@,
                "voice-group"@,
            )
            &&& pair.avg_logprob == Some(utts[i].avg_logprob)
            &&& pair.captured_at matches Some(stamp) && clock::is_utc_stamp(stamp@)
        }
}

/// The training pairs that the daemon stages of a call.
pub fn group_pairs(utts: &Vec<whisper::Utterance>) -> (pairs: Vec<TrainingPair>)
    ensures
        are_group_pairs(pairs@, utts@),
        pairs@.len() == utts@.len(),
        forall|i: int|
            0 <= i < utts@.len() ==> {
                let pair = #[trigger] pairs@[i];
                &&& pair.context@ == context_of(utts@, i, 2)
                &&& pair.matt@ == utts@[i].text@
                &&& pair.source@ == "voice-group"@
                &&& pair.sha@ == pair_sha(pair.matt@, pair.context@)
                &&& pair.avg_logprob == Some(utts@[i].avg_logprob)
            },
{
    utterances_to_pairs(utts, "voice-group", CONTEXT_WINDOW)
}

// ---------------------------------------------------------------------------
// Merging
// ---------------------------------------------------------------------------

/// The hashes of a list of pairs.
pub open spec fn shas(pairs: Seq<TrainingPair>) -> Seq<Seq<char>> {
    pairs.map_values(|p: TrainingPair| p.sha@)
}

/// The pairs that merging `staging` adds to `master`, in their order: of each
/// hash that `master` does not have, the first pair with it.
pub open spec fn added(staging: Seq<TrainingPair>, master: Seq<TrainingPair>) -> Seq<TrainingPair>
    decreases staging.len(),
{
    if staging.len() == 0 {
        Seq::empty()
    } else {
        let before = added(staging.drop_last(), master);
        let pair = staging.last();
        if shas(master).contains(pair.sha@) || shas(before).contains(pair.sha@) {
            before
        } else {
            before.push(pair)
        }
    }
}

/// The hashes of a list of pairs.
fn sha_set(pairs: &Vec<TrainingPair>) -> (set: StringHashSet)
    ensures
        forall|sha: Seq<char>| #[trigger] set@.contains(sha) <==> shas(pairs@).contains(sha),
{
    let ghost all = shas(pairs@);
    let mut set = StringHashSet::new();
    let mut i: usize = 0;
    while i < pairs.len()
        invariant
            i <= pairs@.len(),
            all == shas(pairs@),
            forall|sha: Seq<char>| #[trigger]
                set@.contains(sha) <==> (exists|j: int| 0 <= j < i && #[trigger] all[j] == sha),
        decreases pairs@.len() - i,
    {
        let ghost before = set@;
        set.insert(pairs[i].sha.clone());
        proof {
            assert(all[i as int] == pairs@[i as int].sha@);
            assert forall|sha: Seq<char>| #[trigger]
                set@.contains(sha) <==> (exists|j: int|
                0 <= j < i + 1 && #[trigger] all[j] == sha) by {
                assert(set@.contains(sha) <==> before.contains(sha) || sha == all[i as int]);
            }
        }
        i += 1;
    }
    set
}

/// Picks the pairs of `staging` that a merge adds to `master`, deduped by their
/// hash: a pair is left out if `master`, or a pair before it, has its hash.
pub fn promote(staging: Vec<TrainingPair>, master: &Vec<TrainingPair>) -> (new: Vec<TrainingPair>)
    ensures
        new@ == added(staging@, master@),
{
    let mut existing = sha_set(master);
    let ghost pairs = staging@;
    let mut new: Vec<TrainingPair> = Vec::new();
    assert(pairs.take(0) =~= Seq::<TrainingPair>::empty());
    for pair in it: staging
        invariant
            it.seq() == pairs,
            forall|sha: Seq<char>| #[trigger]
                existing@.contains(sha) <==> shas(master@).contains(sha) || shas(new@).contains(sha),
            new@ == added(pairs.take(it.index()), master@),
    {
        proof {
            let next = pairs.take(it.index() + 1);
            assert(next.drop_last() =~= pairs.take(it.index()));
            assert(next.last() == pair);
        }
        if !existing.contains(&pair.sha) {
            let ghost before = new@;
            existing.insert(pair.sha.clone());
            new.push(pair);
            proof {
                lemma_shas_push(before, pair);
            }
        }
    }
    assert(pairs.take(pairs.len() as int) =~= pairs);
    new
}

proof fn lemma_shas_push(pairs: Seq<TrainingPair>, pair: TrainingPair)
    ensures
        shas(pairs.push(pair)) == shas(pairs).push(pair.sha@),
        forall|sha: Seq<char>| #[trigger]
            shas(pairs.push(pair)).contains(sha) <==> shas(pairs).contains(sha) || sha == pair.sha@,
{
    let all = shas(pairs.push(pair));
    assert(all =~= shas(pairs).push(pair.sha@));
    assert forall|sha: Seq<char>| #[trigger]
        all.contains(sha) <==> shas(pairs).contains(sha) || sha == pair.sha@ by {
        if shas(pairs).contains(sha) {
            let k = choose|k: int| 0 <= k < pairs.len() && shas(pairs)[k] == sha;
            assert(all[k] == sha);
        }
        assert(all[pairs.len() as int] == pair.sha@);
        if all.contains(sha) {
            let k = choose|k: int| 0 <= k < all.len() && all[k] == sha;
            if k < pairs.len() {
                assert(shas(pairs)[k] == sha);
            }
        }
    }
}

// ---------------------------------------------------------------------------
// When pairs may be promoted at once
// ---------------------------------------------------------------------------

/// The fewest pairs that may be promoted without being looked at.
pub const MIN_AUTO_PAIRS: usize = 20;

/// The sign of a single-precision number, given by its bits: whether it is
/// negative.
pub open spec fn is_negative(bits: u32) -> bool {
    bits >= 0x8000_0000
}

/// The bits of the magnitude of a single-precision number.
pub open spec fn magnitude(bits: u32) -> int {
    if is_negative(bits) {
        bits - 0x8000_0000
    } else {
        bits as int
    }
}

/// Whether a single-precision number, given by its bits, is above one half below
/// zero. What is not a number is not.
pub open spec fn is_confident(bits: u32) -> bool {
    magnitude(bits) <= 0x7f80_0000 && (!is_negative(bits) || magnitude(bits) < 0x3f00_0000)
}

/// The log-probabilities of the pairs that have one, in their order.
pub open spec fn logprobs(pairs: Seq<TrainingPair>) -> Seq<u32>
    decreases pairs.len(),
{
    if pairs.len() == 0 {
        Seq::empty()
    } else {
        let rest = logprobs(pairs.drop_last());
        match pairs.last().avg_logprob {
            Some(bits) => rest.push(bits),
            None => rest,
        }
    }
}

/// The log-probabilities of the pairs that have one, in their order.
pub fn present_logprobs(pairs: &Vec<TrainingPair>) -> (list: Vec<u32>)
    ensures
        list@ == logprobs(pairs@),
{
    let mut list: Vec<u32> = Vec::new();
    let mut i: usize = 0;
    while i < pairs.len()
        invariant
            i <= pairs@.len(),
            list@ == logprobs(pairs@.take(i as int)),
        decreases pairs@.len() - i,
    {
        assert(pairs@.take(i + 1).drop_last() =~= pairs@.take(i as int));
        if let Some(bits) = pairs[i].avg_logprob {
            list.push(bits);
        }
        i += 1;
    }
    assert(pairs@.take(pairs@.len() as int) =~= pairs@);
    list
}

/// What the sum of the log-probabilities is divided by for their mean: the number
/// of pairs, or one where there is none.
pub fn mean_divisor(pairs: &Vec<TrainingPair>) -> (n: usize)
    ensures
        n == if pairs@.len() == 0 {
            1
        } else {
            pairs@.len()
        },
{
    if pairs.len() == 0 {
        1
    } else {
        pairs.len()
    }
}

/// Whether pairs may be promoted without being looked at: there are enough of
/// them, and their mean log-probability, given by its bits, is high enough.
pub fn auto_promote_ok(pairs: &Vec<TrainingPair>, mean_logprob: u32) -> (ok: bool)
    ensures
        ok == (pairs@.len() >= MIN_AUTO_PAIRS && is_confident(mean_logprob)),
        ok == (pairs@.len() >= 20 && (mean_logprob <= 0x7f80_0000 || 0x8000_0000 <= mean_logprob
            < 0xbf00_0000)),
{
    if pairs.len() < MIN_AUTO_PAIRS {
        return false;
    }
    if mean_logprob >= 0x8000_0000 {
        mean_logprob - 0x8000_0000 < 0x3f00_0000
    } else {
        mean_logprob <= 0x7f80_0000
    }
}

// ---------------------------------------------------------------------------
// Looking at a sample
// ---------------------------------------------------------------------------

/// What a hasher has been given after `str::hash` on a text, from what it had
/// been given before.
pub uninterp spec fn text_fed(before: Seq<Seq<u8>>, s: Seq<char>) -> Seq<Seq<u8>>;

/// Feeds a text to a hasher (`str::hash`). What the hasher has then been given
/// depends on the text and on what it had been given before; the bytes
/// themselves are left unsaid.
#[verifier::external_body]
fn feed(hasher: &mut DefaultHasher, s: &str)
    ensures
        final(hasher)@ == text_fed(old(hasher)@, s@),
{
    s.hash(hasher)
}

/// The number by which a pair with the given hash is placed in a sample.
pub open spec fn sampling_key(sha: Seq<char>) -> u64 {
    DefaultHasher::spec_finish(text_fed(Seq::empty(), sha))
}

/// The numbers by which pairs are placed in a sample.
pub open spec fn sampling_keys(pairs: Seq<TrainingPair>) -> Seq<u64> {
    pairs.map_values(|p: TrainingPair| sampling_key(p.sha@))
}

/// Whether `picked` is the sample of `n` pairs, or of all where there are fewer:
/// the first by their numbers, and of equal numbers the earlier pair first.
pub open spec fn is_sample(keys: Seq<u64>, n: nat, picked: Seq<usize>) -> bool {
    exists|order: Seq<usize>| #[trigger]
        order::is_stable_order(keys, order) && picked == order.take(
            if n <= keys.len() {
                n as int
            } else {
                keys.len() as int
            },
        )
}

/// The sample of `n` pairs that have the given numbers.
pub fn sample(keys: &Vec<u64>, n: usize) -> (picked: Vec<usize>)
    ensures
        is_sample(keys@, n as nat, picked@),
{
    let mut picked = order::stable_order(keys);
    let ghost order = picked@;
    if n < picked.len() {
        picked.truncate(n);
    }
    assert(picked@ =~= order.take(if n <= keys@.len() { n as int } else { keys@.len() as int }));
    picked
}

/// The number by which a pair with the given hash is placed in a sample.
pub fn key_of(sha: &str) -> (key: u64)
    ensures
        key == sampling_key(sha@),
        key == DefaultHasher::spec_finish(text_fed(Seq::empty(), sha@)),
{
    let mut hasher = DefaultHasher::new();
    feed(&mut hasher, sha);
    hasher.finish()
}

/// The places of the pairs that are looked at in a review of at most `n` pairs.
pub fn review_sample(pairs: &Vec<TrainingPair>, n: usize) -> (picked: Vec<usize>)
    ensures
        is_sample(sampling_keys(pairs@), n as nat, picked@),
{
    let mut keys: Vec<u64> = Vec::new();
    let mut i: usize = 0;
    while i < pairs.len()
        invariant
            i <= pairs@.len(),
            keys@ == sampling_keys(pairs@).take(i as int),
        decreases pairs@.len() - i,
    {
        keys.push(key_of(&pairs[i].sha));
        i += 1;
        assert(keys@ =~= sampling_keys(pairs@).take(i as int));
    }
    assert(keys@ =~= sampling_keys(pairs@));
    sample(&keys, n)
}

/// How many characters of the context a review shows.
pub const SHOWN_CONTEXT: usize = 80;

/// What a review shows of a pair's context.
pub fn context_preview(pair: &TrainingPair) -> (preview: String)
    ensures
        preview@ == text::first_chars(pair.context@, SHOWN_CONTEXT as nat),
        preview@ == if pair.context@.len() <= 80 {
            pair.context@
        } else {
            pair.context@.take(80)
        },
{
    text::head(&pair.context, SHOWN_CONTEXT)
}

// ---------------------------------------------------------------------------
// Laws
// ---------------------------------------------------------------------------

/// Equal utterances after contexts that begin alike have equal hashes: what
/// follows the hashed part of a context does not count.
pub proof fn law_same_input_same_hash(matt: Seq<char>, a: Seq<char>, b: Seq<char>)
    requires
        text::first_chars(a, HASHED_CONTEXT as nat) == text::first_chars(b, HASHED_CONTEXT as nat),
    ensures
        pair_sha(matt, a) == pair_sha(matt, b),
{
}

/// What is hashed tells pairs apart: where neither utterance holds a zero
/// character, equal messages come of equal utterances after contexts that begin
/// alike.
pub proof fn law_message_tells_pairs_apart(
    matt_a: Seq<char>,
    context_a: Seq<char>,
    matt_b: Seq<char>,
    context_b: Seq<char>,
)
    requires
        !matt_a.contains('\0'),
        !matt_b.contains('\0'),
        hash_message(matt_a, context_a) == hash_message(matt_b, context_b),
    ensures
        matt_a == matt_b,
        text::first_chars(context_a, HASHED_CONTEXT as nat) == text::first_chars(
            context_b,
            HASHED_CONTEXT as nat,
        ),
{
    let a = encode_utf8(matt_a);
    let b = encode_utf8(matt_b);
    let rest_a = encode_utf8(text::first_chars(context_a, HASHED_CONTEXT as nat));
    let rest_b = encode_utf8(text::first_chars(context_b, HASHED_CONTEXT as nat));
    let message = hash_message(matt_a, context_a);
    utf8::lemma_ascii_byte(matt_a, '\0');
    utf8::lemma_ascii_byte(matt_b, '\0');
    assert(message =~= a.push(0) + rest_a);
    assert(message =~= b.push(0) + rest_b);
    assert(a.len() == b.len()) by {
        assert(message[a.len() as int] == 0);
        assert(message[b.len() as int] == 0);
        if a.len() < b.len() {
            assert(b[a.len() as int] == 0);
            assert(b.contains(0));
        }
        if b.len() < a.len() {
            assert(a[b.len() as int] == 0);
            assert(a.contains(0));
        }
    }
    assert(a =~= message.take(a.len() as int));
    assert(b =~= message.take(b.len() as int));
    assert(rest_a =~= message.skip(a.len() as int + 1));
    assert(rest_b =~= message.skip(b.len() as int + 1));
    utf8::lemma_encode_injective(matt_a, matt_b);
    utf8::lemma_encode_injective(
        text::first_chars(context_a, HASHED_CONTEXT as nat),
        text::first_chars(context_b, HASHED_CONTEXT as nat),
    );
}

/// The context of an utterance depends on nothing but the utterances before it,
/// at most as many as the window is wide.
pub proof fn law_context_is_what_came_before(
    a: Seq<whisper::Utterance>,
    b: Seq<whisper::Utterance>,
    i: int,
    window: nat,
)
    requires
        0 <= i <= a.len(),
        i <= b.len(),
        forall|k: int| 0 <= k < i && i - window <= k ==> (#[trigger] a[k]).text@ == b[k].text@,
    ensures
        context_of(a, i, window) == context_of(b, i, window),
{
    let start = if i >= window {
        i - window
    } else {
        0
    };
    assert(spoken(a).subrange(start, i) =~= spoken(b).subrange(start, i));
}

/// A merge adds pairs of the staging file only, none of which has a hash that
/// the master file has.
pub proof fn law_added_are_new(staging: Seq<TrainingPair>, master: Seq<TrainingPair>, i: int)
    requires
        0 <= i < added(staging, master).len(),
    ensures
        staging.contains(added(staging, master)[i]),
        !shas(master).contains(added(staging, master)[i].sha@),
    decreases staging.len(),
{
    let front = staging.drop_last();
    let before = added(front, master);
    if i < before.len() {
        law_added_are_new(front, master, i);
        let k = choose|k: int| 0 <= k < front.len() && front[k] == before[i];
        assert(staging[k] == added(staging, master)[i]);
    } else {
        assert(staging[staging.len() - 1] == added(staging, master)[i]);
    }
}

/// After a merge the master file has the hash of every pair of the staging file.
pub proof fn law_merge_covers_staging(
    staging: Seq<TrainingPair>,
    master: Seq<TrainingPair>,
    i: int,
)
    requires
        0 <= i < staging.len(),
    ensures
        shas(master + added(staging, master)).contains(staging[i].sha@),
    decreases staging.len(),
{
    let new = added(staging, master);
    let front = staging.drop_last();
    let before = added(front, master);
    let sha = staging[i].sha@;
    if i < front.len() {
        law_merge_covers_staging(front, master, i);
        assert(front[i] == staging[i]);
        lemma_shas_concat(master, before, sha);
        lemma_shas_push(before, staging.last());
    } else {
        lemma_shas_push(before, staging.last());
    }
    lemma_shas_concat(master, new, sha);
}

proof fn lemma_shas_concat(a: Seq<TrainingPair>, b: Seq<TrainingPair>, sha: Seq<char>)
    ensures
        shas(a + b).contains(sha) <==> shas(a).contains(sha) || shas(b).contains(sha),
{
    let all = shas(a + b);
    if shas(a).contains(sha) {
        let k = choose|k: int| 0 <= k < a.len() && shas(a)[k] == sha;
        assert(all[k] == sha);
    }
    if shas(b).contains(sha) {
        let k = choose|k: int| 0 <= k < b.len() && shas(b)[k] == sha;
        assert(all[a.len() + k] == sha);
    }
    if all.contains(sha) {
        let k = choose|k: int| 0 <= k < all.len() && all[k] == sha;
        if k < a.len() {
            assert(shas(a)[k] == sha);
        } else {
            assert(shas(b)[k - a.len()] == sha);
        }
    }
}

/// Merging the same staging file again adds nothing.
pub proof fn law_merging_again_adds_nothing(
    staging: Seq<TrainingPair>,
    master: Seq<TrainingPair>,
)
    ensures
        added(staging, master + added(staging, master)).len() == 0,
{
    let merged = master + added(staging, master);
    let again = added(staging, merged);
    if again.len() > 0 {
        law_added_are_new(staging, merged, 0);
        let k = choose|k: int| 0 <= k < staging.len() && staging[k] == again[0];
        law_merge_covers_staging(staging, master, k);
    }
}

/// A merge is deduped: no two added pairs share a hash, and where no hash stood
/// in the master file twice, none does after the merge.
pub proof fn law_merge_keeps_hashes_apart(
    staging: Seq<TrainingPair>,
    master: Seq<TrainingPair>,
)
    ensures
        shas(added(staging, master)).no_duplicates(),
        shas(master).no_duplicates() ==> shas(master + added(staging, master)).no_duplicates(),
    decreases staging.len(),
{
    let new = added(staging, master);
    if staging.len() > 0 {
        let before = added(staging.drop_last(), master);
        law_merge_keeps_hashes_apart(staging.drop_last(), master);
        lemma_shas_push(before, staging.last());
    }
    if shas(master).no_duplicates() {
        let all = shas(master + new);
        let n = master.len() as int;
        assert forall|i: int, j: int| 0 <= i < j < all.len() implies all[i] != all[j] by {
            if j < n {
                assert(all[i] == shas(master)[i]);
                assert(all[j] == shas(master)[j]);
            } else if i >= n {
                assert(all[i] == shas(new)[i - n]);
                assert(all[j] == shas(new)[j - n]);
            } else {
                law_added_are_new(staging, master, j - n);
                assert(all[i] == shas(master)[i]);
                assert(all[j] == new[j - n].sha@);
            }
        }
    }
}

/// Of the pairs of a staging file that share a hash the first is added, where the
/// master file does not have the hash.
pub proof fn law_first_of_equal_hashes_is_added(
    staging: Seq<TrainingPair>,
    master: Seq<TrainingPair>,
    i: int,
)
    requires
        0 <= i < staging.len(),
        !shas(master).contains(staging[i].sha@),
        forall|k: int| 0 <= k < i ==> (#[trigger] staging[k]).sha@ != staging[i].sha@,
    ensures
        added(staging, master).contains(staging[i]),
    decreases staging.len(),
{
    let new = added(staging, master);
    let front = staging.drop_last();
    let before = added(front, master);
    if i < front.len() {
        assert forall|k: int| 0 <= k < i implies (#[trigger] front[k]).sha@ != front[i].sha@ by {
            assert(front[k] == staging[k]);
        }
        law_first_of_equal_hashes_is_added(front, master, i);
        let k = choose|k: int| 0 <= k < before.len() && before[k] == staging[i];
        assert(new[k] == staging[i]);
    } else {
        if shas(before).contains(staging[i].sha@) {
            let k = choose|k: int| 0 <= k < before.len() && shas(before)[k] == staging[i].sha@;
            law_added_are_new(front, master, k);
            let m = choose|m: int| 0 <= m < front.len() && front[m] == before[k];
            assert(staging[m].sha@ == staging[i].sha@);
        }
        assert(new[new.len() - 1] == staging[i]);
    }
}

/// A review picks as many pairs as asked for, or all where there are fewer; each
/// is a pair of the file, and none is picked twice.
pub proof fn law_sample_is_of_the_pairs(keys: Seq<u64>, n: nat, picked: Seq<usize>)
    requires
        is_sample(keys, n, picked),
    ensures
        picked.len() == if n <= keys.len() {
            n
        } else {
            keys.len()
        },
        forall|i: int| 0 <= i < picked.len() ==> (#[trigger] picked[i]) < keys.len(),
        picked.no_duplicates(),
{
    let k = if n <= keys.len() {
        n as int
    } else {
        keys.len() as int
    };
    let order = choose|order: Seq<usize>| #[trigger]
        order::is_stable_order(keys, order) && picked == order.take(k);
    assert forall|i: int, j: int|
        0 <= i < picked.len() && 0 <= j < picked.len() && i != j implies picked[i]
        != picked[j] by {
        assert(picked[i] == order[i]);
        assert(picked[j] == order[j]);
        if i < j {
            assert(order::comes_before(keys, order[i], order[j]));
        } else {
            assert(order::comes_before(keys, order[j], order[i]));
        }
    }
}

/// The same pairs always give the same sample.
pub proof fn law_sample_is_unique(keys: Seq<u64>, n: nat, a: Seq<usize>, b: Seq<usize>)
    requires
        is_sample(keys, n, a),
        is_sample(keys, n, b),
    ensures
        a == b,
{
    let k = if n <= keys.len() {
        n as int
    } else {
        keys.len() as int
    };
    let x = choose|order: Seq<usize>| #[trigger]
        order::is_stable_order(keys, order) && a == order.take(k);
    let y = choose|order: Seq<usize>| #[trigger]
        order::is_stable_order(keys, order) && b == order.take(k);
    order::law_stable_order_is_unique(keys, x, y);
}

/// The order of the lines does not matter for a sample: the numbers of the picked
/// pairs are the same, and so are the pairs where no two pairs share a number.
pub proof fn law_sample_ignores_line_order(
    a: Seq<TrainingPair>,
    b: Seq<TrainingPair>,
    n: nat,
    picked_a: Seq<usize>,
    picked_b: Seq<usize>,
)
    requires
        a.len() <= usize::MAX,
        a.to_multiset() == b.to_multiset(),
        is_sample(sampling_keys(a), n, picked_a),
        is_sample(sampling_keys(b), n, picked_b),
    ensures
        picked_a.len() == picked_b.len(),
        forall|i: int|
            0 <= i < picked_a.len() ==> {
                let x = a[#[trigger] picked_a[i] as int];
                let y = b[picked_b[i] as int];
                &&& sampling_key(x.sha@) == sampling_key(y.sha@)
                &&& sampling_keys(a).no_duplicates() ==> x == y
            },
{
    broadcast use vstd::seq_lib::group_to_multiset_ensures;

    let f = |p: TrainingPair| sampling_key(p.sha@);
    let keys_a = sampling_keys(a);
    let keys_b = sampling_keys(b);
    assert(a.len() == a.to_multiset().len() == b.len());
    order::lemma_map_same(a, b, f);
    let k = if n <= keys_a.len() {
        n as int
    } else {
        keys_a.len() as int
    };
    let x = choose|order: Seq<usize>| #[trigger]
        order::is_stable_order(keys_a, order) && picked_a == order.take(k);
    let y = choose|order: Seq<usize>| #[trigger]
        order::is_stable_order(keys_b, order) && picked_b == order.take(k);
    order::law_stable_order_ignores_input_order(keys_a, keys_b, x, y);
    assert forall|i: int| 0 <= i < picked_a.len() implies {
        let p = a[#[trigger] picked_a[i] as int];
        let q = b[picked_b[i] as int];
        &&& sampling_key(p.sha@) == sampling_key(q.sha@)
        &&& keys_a.no_duplicates() ==> p == q
    } by {
        assert(picked_a[i] == x[i] && picked_b[i] == y[i]);
        assert(x[i] < keys_a.len() && y[i] < keys_b.len());
        assert(order::keys_in_order(keys_a, x)[i] == order::keys_in_order(keys_b, y)[i]);
        let q = b[y[i] as int];
        assert(b.contains(q));
        assert(a.to_multiset().count(q) > 0);
        let j = choose|j: int| 0 <= j < a.len() && a[j] == q;
        assert(keys_a[j] == sampling_key(q.sha@));
        assert(keys_a[x[i] as int] == sampling_key(a[x[i] as int].sha@));
    }
}

/// The hash of a pair is made of the whole utterance, a zero byte and the first
/// 256 characters of the context.
pub proof fn law_hash_takes_the_whole_utterance(matt: Seq<char>, context: Seq<char>)
    ensures
        context.len() <= 256 ==> pair_sha(matt, context) == hex_text(
            sha256_digest(encode_utf8(matt).push(0) + encode_utf8(context)),
        ),
        context.len() > 256 ==> pair_sha(matt, context) == hex_text(
            sha256_digest(encode_utf8(matt).push(0) + encode_utf8(context.take(256))),
        ),
{
}

proof fn lemma_hex_injective(a: Seq<u8>, b: Seq<u8>)
    requires
        hex_text(a) == hex_text(b),
    ensures
        a == b,
{
    let x = hex_text(a);
    let y = hex_text(b);
    assert(x.len() == 2 * a.len() && y.len() == 2 * b.len());
    assert forall|i: int| 0 <= i < a.len() implies a[i] == b[i] by {
        assert(x[2 * i] == y[2 * i]);
        assert(x[2 * i + 1] == y[2 * i + 1]);
        assert((2 * i) / 2 == i && (2 * i + 1) / 2 == i);
        assert(x[2 * i] == hex_digit(a[i] as int / 16));
        assert(y[2 * i] == hex_digit(b[i] as int / 16));
        assert(x[2 * i + 1] == hex_digit(a[i] as int % 16));
        assert(y[2 * i + 1] == hex_digit(b[i] as int % 16));
        lemma_hex_digit(a[i] as int / 16, b[i] as int / 16);
        lemma_hex_digit(a[i] as int % 16, b[i] as int % 16);
    }
    assert(a =~= b);
}

proof fn lemma_hex_digit(a: int, b: int)
    requires
        0 <= a < 16,
        0 <= b < 16,
        hex_digit(a) == hex_digit(b),
    ensures
        a == b,
{
    assert(hex_digit(a) as int == if a < 10 {
        48 + a
    } else {
        87 + a
    });
    assert(hex_digit(b) as int == if b < 10 {
        48 + b
    } else {
        87 + b
    });
}

/// Where the digest tells apart the two messages, each the whole utterance, a
/// zero byte and the first 256 characters of the context, the hashes tell the
/// pairs apart, however long the utterances are: equal hashes come of equal
/// utterances, and of contexts that agree in their first 256 characters.
pub proof fn law_hashes_tell_pairs_apart(
    matt_a: Seq<char>,
    context_a: Seq<char>,
    matt_b: Seq<char>,
    context_b: Seq<char>,
)
    requires
        !matt_a.contains('\0'),
        !matt_b.contains('\0'),
        pair_sha(matt_a, context_a) == pair_sha(matt_b, context_b),
        ({
            let a = encode_utf8(matt_a).push(0) + encode_utf8(
                if context_a.len() <= 256 {
                    context_a
                } else {
                    context_a.take(256)
                },
            );
            let b = encode_utf8(matt_b).push(0) + encode_utf8(
                if context_b.len() <= 256 {
                    context_b
                } else {
                    context_b.take(256)
                },
            );
            sha256_digest(a) == sha256_digest(b) ==> a == b
        }),
    ensures
        matt_a == matt_b,
        context_a.len() > 256 ==> context_b.len() >= 256 && context_a.take(256)
            == context_b.take(256),
        context_a.len() <= 256 && context_b.len() <= 256 ==> context_a == context_b,
{
    lemma_hex_injective(
        sha256_digest(hash_message(matt_a, context_a)),
        sha256_digest(hash_message(matt_b, context_b)),
    );
    law_message_tells_pairs_apart(matt_a, context_a, matt_b, context_b);
    if context_b.len() == 256 {
        assert(context_b.take(256) =~= context_b);
    }
}

/// The context of an utterance is the utterances before it in full, at most as
/// many as the window is wide, one per line: without any it is empty, with one it
/// is that one, and with more it is the context of the utterance before, in a
/// window narrower by one, a line feed, and that utterance.
pub proof fn law_context_is_in_full(utts: Seq<whisper::Utterance>, i: int, window: nat)
    requires
        0 <= i <= utts.len(),
    ensures
        i == 0 || window == 0 ==> context_of(utts, i, window).len() == 0,
        i > 0 && window == 1 ==> context_of(utts, i, window) == utts[i - 1].text@,
        i == 1 && window > 0 ==> context_of(utts, i, window) == utts[0].text@,
        i > 1 && window > 1 ==> context_of(utts, i, window) == context_of(
            utts,
            i - 1,
            (window - 1) as nat,
        ).push('\n') + utts[i - 1].text@,
{
    let start = if i >= window {
        i - window
    } else {
        0
    };
    let part = spoken(utts).subrange(start, i);
    assert(part.len() == i - start);
    if i > 0 && window > 0 {
        assert(part.last() == utts[i - 1].text@);
        if i > 1 && window > 1 {
            assert(part.drop_last() =~= spoken(utts).subrange(start, i - 1));
        } else {
            assert(part[0] == utts[i - 1].text@);
        }
    }
}

/// Where no utterance holds a line feed, the lines of a context are the
/// utterances before, in their order and each in full.
pub proof fn law_context_lines_are_the_utterances(
    utts: Seq<whisper::Utterance>,
    i: int,
    window: nat,
)
    requires
        0 < i <= utts.len(),
        window > 0,
        forall|k: int| 0 <= k < i ==> !(#[trigger] utts[k]).text@.contains('\n'),
    ensures
        pieces::pieces(context_of(utts, i, window), '\n') == utts.map_values(
            |u: whisper::Utterance| u.text@,
        ).subrange(
            if i >= window {
                i - window
            } else {
                0
            },
            i,
        ),
    decreases i,
{
    let said = utts.map_values(|u: whisper::Utterance| u.text@);
    let start = if i >= window {
        i - window
    } else {
        0
    };
    let last = utts[i - 1].text@;
    law_context_is_in_full(utts, i, window);
    pieces::lemma_pieces_whole(last, '\n');
    if i > 1 && window > 1 {
        let before = context_of(utts, i - 1, (window - 1) as nat);
        law_context_lines_are_the_utterances(utts, i - 1, (window - 1) as nat);
        pieces::lemma_pieces_around(before, '\n', last);
        assert(said.subrange(start, i) =~= said.subrange(start, i - 1) + seq![last]);
    } else {
        assert(said.subrange(start, i) =~= seq![last]);
    }
}

/// What a merge adds: pairs of the staging file in their order, each the first
/// there with its hash, and each with a hash that no pair of the master file has;
/// and it leaves out no such pair.
pub proof fn law_merge_adds_each_new_hash_once(
    staging: Seq<TrainingPair>,
    master: Seq<TrainingPair>,
    new: Seq<TrainingPair>,
)
    requires
        new == added(staging, master),
    ensures
        exists|at: Seq<int>|
            {
                &&& #[trigger] at.len() == new.len()
                &&& forall|i: int, j: int| 0 <= i < j < at.len() ==> at[i] < at[j]
                &&& forall|i: int|
                    0 <= i < at.len() ==> 0 <= #[trigger] at[i] < staging.len() && new[i]
                        == staging[at[i]]
                &&& forall|k: int|
                    0 <= k < staging.len() ==> (at.contains(k) <==> {
                        &&& forall|m: int|
                            0 <= m < master.len() ==> (#[trigger] master[m]).sha@
                                != staging[k].sha@
                        &&& forall|j: int|
                            0 <= j < k ==> (#[trigger] staging[j]).sha@ != (
                            #[trigger] staging[k]).sha@
                    })
            },
{
    let at = lemma_added_places(staging, master);
    assert(at.len() == new.len());
}

proof fn lemma_added_places(staging: Seq<TrainingPair>, master: Seq<TrainingPair>) -> (at: Seq<int>)
    ensures
        at.len() == added(staging, master).len(),
        forall|i: int, j: int| 0 <= i < j < at.len() ==> at[i] < at[j],
        forall|i: int|
            0 <= i < at.len() ==> 0 <= #[trigger] at[i] < staging.len() && added(
                staging,
                master,
            )[i] == staging[at[i]],
        forall|k: int|
            0 <= k < staging.len() ==> (at.contains(k) <==> {
                &&& forall|m: int|
                    0 <= m < master.len() ==> (#[trigger] master[m]).sha@ != staging[k].sha@
                &&& forall|j: int|
                    0 <= j < k ==> (#[trigger] staging[j]).sha@ != (#[trigger] staging[k]).sha@
            }),
    decreases staging.len(),
{
    if staging.len() == 0 {
        Seq::empty()
    } else {
        let front = staging.drop_last();
        let before = added(front, master);
        let pair = staging.last();
        let n = front.len() as int;
        let old_at = lemma_added_places(front, master);
        let in_master = shas(master).contains(pair.sha@);
        let in_front = shas(before).contains(pair.sha@);
        assert(in_master <==> !(forall|m: int|
            0 <= m < master.len() ==> (#[trigger] master[m]).sha@ != pair.sha@)) by {
            if in_master {
                let m = choose|m: int| 0 <= m < master.len() && shas(master)[m] == pair.sha@;
                assert(master[m].sha@ == pair.sha@);
            }
            if !(forall|m: int|
                0 <= m < master.len() ==> (#[trigger] master[m]).sha@ != pair.sha@) {
                let m = choose|m: int|
                    0 <= m < master.len() && (#[trigger] master[m]).sha@ == pair.sha@;
                assert(shas(master)[m] == pair.sha@);
            }
        }
        if in_front {
            let i = choose|i: int| 0 <= i < before.len() && shas(before)[i] == pair.sha@;
            assert(before[i] == front[old_at[i]]);
            assert(staging[old_at[i]].sha@ == pair.sha@);
        }
        if !in_master && !in_front {
            if exists|j: int| 0 <= j < n && (#[trigger] staging[j]).sha@ == pair.sha@ {
                let j = choose|j: int| 0 <= j < n && (#[trigger] staging[j]).sha@ == pair.sha@;
                assert(front[j] == staging[j]);
                law_merge_covers_staging(front, master, j);
                lemma_shas_concat(master, before, pair.sha@);
            }
        }
        let at = if in_master || in_front {
            old_at
        } else {
            old_at.push(n)
        };
        assert forall|k: int| 0 <= k < staging.len() implies (at.contains(k) <==> {
            &&& forall|m: int|
                0 <= m < master.len() ==> (#[trigger] master[m]).sha@ != staging[k].sha@
            &&& forall|j: int|
                0 <= j < k ==> (#[trigger] staging[j]).sha@ != (#[trigger] staging[k]).sha@
        }) by {
            if k < n {
                assert(front[k] == staging[k]);
                assert(old_at.contains(k) <==> at.contains(k)) by {
                    if old_at.contains(k) {
                        let i = choose|i: int| 0 <= i < old_at.len() && old_at[i] == k;
                        assert(at[i] == k);
                    }
                    if at.contains(k) {
                        let i = choose|i: int| 0 <= i < at.len() && at[i] == k;
                        assert(old_at[i] == k);
                    }
                }
                assert((forall|j: int|
                    0 <= j < k ==> (#[trigger] staging[j]).sha@ != staging[k].sha@) <==> (forall|
                    j: int,
                |
                    0 <= j < k ==> (#[trigger] front[j]).sha@ != front[k].sha@)) by {
                    assert forall|j: int| 0 <= j < k implies front[j] == staging[j] by {}
                }
            } else {
                if in_master || in_front {
                    if at.contains(k) {
                        let i = choose|i: int| 0 <= i < at.len() && at[i] == k;
                        assert(old_at[i] < front.len());
                    }
                } else {
                    assert(at[old_at.len() as int] == n);
                }
            }
        }
        at
    }
}

/// The log-probabilities are those of the pairs that have one, in their order.
pub proof fn law_logprobs(pairs: Seq<TrainingPair>)
    ensures
        logprobs(pairs) == pairs.filter(
            |p: TrainingPair| p.avg_logprob is Some,
        ).map_values(|p: TrainingPair| p.avg_logprob->0),
    decreases pairs.len(),
{
    reveal(Seq::filter);
    let some = |p: TrainingPair| p.avg_logprob is Some;
    let value = |p: TrainingPair| p.avg_logprob->0;
    if pairs.len() > 0 {
        law_logprobs(pairs.drop_last());
        if some(pairs.last()) {
            assert(pairs.filter(some).map_values(value) =~= pairs.drop_last().filter(
                some,
            ).map_values(value).push(value(pairs.last())));
        }
    }
    assert(logprobs(pairs) =~= pairs.filter(some).map_values(value));
}

/// A sample lists the pairs with the smallest numbers, by ascending number and,
/// of equal numbers, the earlier pair first: whatever is left out comes after all
/// that is picked.
pub proof fn law_sample_is_the_smallest(keys: Seq<u64>, n: nat, picked: Seq<usize>)
    requires
        is_sample(keys, n, picked),
    ensures
        forall|i: int, j: int|
            0 <= i < j < picked.len() ==> keys[#[trigger] picked[i] as int] < keys[
            #[trigger] picked[j] as int] || (keys[picked[i] as int] == keys[picked[j] as int]
                && picked[i] < picked[j]),
        forall|i: int, x: usize|
            0 <= i < picked.len() && x < keys.len() && !(#[trigger] picked.contains(x)) ==> keys[
            #[trigger] picked[i] as int] < keys[x as int] || (keys[picked[i] as int]
                == keys[x as int] && picked[i] < x),
{
    let k = if n <= keys.len() {
        n as int
    } else {
        keys.len() as int
    };
    let order = choose|order: Seq<usize>| #[trigger]
        order::is_stable_order(keys, order) && picked == order.take(k);
    order::law_stable_order(keys, order);
    assert forall|i: int, j: int| 0 <= i < j < picked.len() implies keys[
    #[trigger] picked[i] as int] < keys[#[trigger] picked[j] as int] || (keys[picked[i] as int]
        == keys[picked[j] as int] && picked[i] < picked[j]) by {
        assert(picked[i] == order[i] && picked[j] == order[j]);
    }
    assert forall|i: int, x: usize|
        0 <= i < picked.len() && x < keys.len() && !(#[trigger] picked.contains(x)) implies keys[
    #[trigger] picked[i] as int] < keys[x as int] || (keys[picked[i] as int] == keys[x as int]
        && picked[i] < x) by {
        assert(order.contains(x));
        let j = choose|j: int| 0 <= j < order.len() && order[j] == x;
        if j < k {
            assert(picked[j] == x);
        }
        assert(picked[i] == order[i]);
    }
}

/// The number of a pair comes of its hash alone, by the hasher that all samples
/// share.
pub proof fn law_sampling_keys(pairs: Seq<TrainingPair>)
    ensures
        sampling_keys(pairs).len() == pairs.len(),
        forall|i: int|
            0 <= i < pairs.len() ==> #[trigger] sampling_keys(pairs)[i]
                == DefaultHasher::spec_finish(text_fed(Seq::empty(), pairs[i].sha@)),
{
}

} // verus!
