//! Facts about the UTF-8 encoding.

use vstd::prelude::*;
use vstd::utf8::*;

verus! {

/// Decodes a byte string (`String::from_utf8` of the standard library): it gives
/// the encoded text exactly where the bytes are valid UTF-8.
#[verifier::external_body]
pub(crate) fn decode(bytes: Vec<u8>) -> (s: Option<String>)
    ensures
        match s {
            Some(t) => valid_utf8(bytes@) && t@ == decode_utf8(bytes@),
            None => !valid_utf8(bytes@),
        },
{
    String::from_utf8(bytes).ok()
}

/// The encoding of a text is the encoding of its parts, one after the other.
pub proof fn lemma_encode_concat(a: Seq<char>, b: Seq<char>)
    ensures
        encode_utf8(a + b) == encode_utf8(a) + encode_utf8(b),
    decreases a.len(),
{
    if a.len() == 0 {
        assert(a + b =~= b);
        assert(encode_utf8(a) + encode_utf8(b) =~= encode_utf8(b));
    } else {
        assert((a + b).drop_first() =~= a.drop_first() + b);
        lemma_encode_concat(a.drop_first(), b);
        assert(encode_utf8(a + b) =~= encode_utf8(a) + encode_utf8(b));
    }
}

/// A character is encoded as itself if it is ASCII, else by bytes that are not
/// ASCII.
proof fn lemma_encode_scalar(c: char)
    ensures
        encode_scalar(c as u32).len() >= 1,
        (c as u32) < 0x80 ==> encode_scalar(c as u32) == seq![c as u8] && (c as u8) as int
            == c as int,
        (c as u32) >= 0x80 ==> forall|i: int|
            0 <= i < encode_scalar(c as u32).len() ==> #[trigger] encode_scalar(c as u32)[i] >= 0x80,
{
    let one = seq![c];
    let bytes = encode_utf8(one);
    encode_utf8_first_scalar(one);
    assert(one.drop_first() =~= Seq::<char>::empty());
    reveal_with_fuel(encode_utf8, 2);
    assert(bytes =~= encode_scalar(c as u32));
    let b = bytes[0];
    assert(b <= 0x7f ==> b & 0x7f == b) by (bit_vector);
    if (c as u32) < 0x80 {
        is_ascii_chars_encode_utf8(one);
        assert(bytes =~= seq![c as u8]);
    }
}

/// An ASCII byte occurs in an encoding exactly where the text holds that
/// character.
pub proof fn lemma_ascii_byte(s: Seq<char>, c: char)
    requires
        (c as u32) < 0x80,
    ensures
        encode_utf8(s).contains(c as u8) <==> s.contains(c),
    decreases s.len(),
{
    if s.len() > 0 {
        let rest = s.drop_first();
        let head = encode_scalar(s[0] as u32);
        lemma_ascii_byte(rest, c);
        lemma_encode_scalar(s[0]);
        let all = encode_utf8(s);
        assert(all == head + encode_utf8(rest));
        if s.contains(c) {
            let i = choose|i: int| 0 <= i < s.len() && s[i] == c;
            if i == 0 {
                assert(all[0] == c as u8);
            } else {
                assert(rest[i - 1] == c);
                let j = choose|j: int|
                    0 <= j < encode_utf8(rest).len() && encode_utf8(rest)[j] == c as u8;
                assert(all[head.len() + j] == c as u8);
            }
        }
        if all.contains(c as u8) {
            let i = choose|i: int| 0 <= i < all.len() && all[i] == c as u8;
            if i < head.len() {
                assert(head[i] == c as u8);
                lemma_encode_scalar(c);
                char_is_scalar(s[0]);
                assert(s[0] as int == c as int);
            } else {
                assert(encode_utf8(rest)[i - head.len()] == c as u8);
                let j = choose|j: int| 0 <= j < rest.len() && rest[j] == c;
                assert(s[j + 1] == c);
            }
        }
    }
}

/// An encoding ends with an ASCII byte exactly where the text ends with that
/// character.
pub proof fn lemma_ascii_last(s: Seq<char>, c: char)
    requires
        (c as u32) < 0x80,
        s.len() > 0,
    ensures
        encode_utf8(s).len() > 0,
        encode_utf8(s).last() == c as u8 <==> s.last() == c,
{
    let front = s.drop_last();
    let one = seq![s.last()];
    assert(front + one =~= s);
    lemma_encode_concat(front, one);
    lemma_encode_scalar(s.last());
    assert(one.drop_first() =~= Seq::<char>::empty());
    reveal_with_fuel(encode_utf8, 2);
    let tail = encode_scalar(s.last() as u32);
    assert(encode_utf8(one) =~= tail);
    assert(encode_utf8(s).last() == tail[tail.len() - 1]);
    lemma_encode_scalar(c);
    char_is_scalar(s.last());
    if tail[tail.len() - 1] == c as u8 {
        assert(s.last() as int == c as int);
    }
}

/// Different texts have different encodings.
pub proof fn lemma_encode_injective(a: Seq<char>, b: Seq<char>)
    requires
        encode_utf8(a) == encode_utf8(b),
    ensures
        a == b,
{
    encode_utf8_decode_utf8(a);
    encode_utf8_decode_utf8(b);
}

} // verus!
