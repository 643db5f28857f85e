//! JSON Lines: one record per line of a UTF-8 file.

use crate::pieces;
use crate::text;
use crate::utf8;
use vstd::prelude::*;
use vstd::utf8::*;

verus! {

/// A line feed.
pub const LF: u8 = 10;

/// A carriage return.
pub const CR: u8 = 13;

/// `line` without a carriage return at its end.
pub open spec fn without_cr(line: Seq<u8>) -> Seq<u8> {
    if line.len() > 0 && line.last() == CR {
        line.drop_last()
    } else {
        line
    }
}

/// The lines of a file. A line ends with a line feed, which may follow a
/// carriage return; what follows the last line feed is a line of its own unless
/// it is empty.
pub open spec fn lines(bytes: Seq<u8>) -> Seq<Seq<u8>> {
    let parts = pieces::pieces(bytes, LF);
    parts.drop_last().map_values(|line: Seq<u8>| without_cr(line)) + if parts.last().len() == 0 {
        Seq::empty()
    } else {
        seq![parts.last()]
    }
}

/// The records on `lines`, blank lines left out, up to the first line that is
/// not valid UTF-8; and whether there is no such line.
pub open spec fn records(lines: Seq<Seq<u8>>) -> (Seq<Seq<char>>, bool)
    decreases lines.len(),
{
    if lines.len() == 0 {
        (Seq::empty(), true)
    } else if !valid_utf8(lines[0]) {
        (Seq::empty(), false)
    } else {
        let first = decode_utf8(lines[0]);
        let rest = records(lines.drop_first());
        if text::is_blank(first) {
            rest
        } else {
            (seq![first] + rest.0, rest.1)
        }
    }
}

/// A file that holds the given records, each ended by a line feed.
pub open spec fn framed(list: Seq<Seq<char>>) -> Seq<u8>
    decreases list.len(),
{
    if list.len() == 0 {
        Seq::empty()
    } else {
        framed(list.drop_last()) + encode_utf8(list.last()).push(LF)
    }
}

/// What was read from a file.
#[derive(Debug, PartialEq, Eq)]
pub struct Records {
    /// The records before the first line that is not valid UTF-8.
    pub list: Vec<String>,
    /// Whether every line is valid UTF-8.
    pub complete: bool,
}

/// Lays records out as a file.
pub fn write_jsonl(list: &Vec<String>) -> (bytes: Vec<u8>)
    ensures
        bytes@ == framed(text::texts(list@)),
{
    let ghost all = text::texts(list@);
    let mut out: Vec<u8> = Vec::new();
    let mut i: usize = 0;
    assert(all.take(0) =~= Seq::<Seq<char>>::empty());
    while i < list.len()
        invariant
            i <= list@.len(),
            all == text::texts(list@),
            out@ == framed(all.take(i as int)),
        decreases list@.len() - i,
    {
        let ghost before = out@;
        out.extend_from_slice(list[i].as_str().as_bytes());
        assert(out@ =~= before + encode_utf8(list@[i as int]@));
        out.push(LF);
        proof {
            assert(all.take(i + 1).drop_last() =~= all.take(i as int));
            assert(all.take(i + 1).last() == list@[i as int]@);
            assert(out@ =~= before + encode_utf8(list@[i as int]@).push(LF));
        }
        i += 1;
    }
    assert(all.take(i as int) =~= all);
    out
}

/// The lines of a file.
pub fn split_lines(bytes: &Vec<u8>) -> (list: Vec<Vec<u8>>)
    ensures
        pieces::contents(list@) == lines(bytes@),
        list@.map_values(|line: Vec<u8>| line@) == lines(bytes@),
{
    let mut parts = pieces::split_bytes(bytes, LF);
    let ghost all = pieces::pieces(bytes@, LF);
    proof {
        pieces::lemma_pieces(bytes@, LF);
        assert(all.len() == parts@.len());
    }
    let last = match parts.pop() {
        Some(last) => last,
        None => Vec::new(),
    };
    assert(last@ == all.last());
    assert(pieces::contents(parts@) =~= all.drop_last());
    let ghost strip = |line: Seq<u8>| without_cr(line);
    let ghost head = all.drop_last();
    let mut out: Vec<Vec<u8>> = Vec::new();
    assert(pieces::contents(out@) =~= head.take(0).map_values(strip));
    for part in it: parts
        invariant
            it.seq() == parts@,
            head == pieces::contents(parts@),
            strip == (|line: Seq<u8>| without_cr(line)),
            pieces::contents(out@) == head.take(it.index() as int).map_values(strip),
    {
        let ghost i = it.index() as int;
        let mut line = part;
        assert(line@ == head[i]);
        let n: usize = line.len();
        if n > 0 && line[n - 1] == CR {
            line.truncate(n - 1);
            assert(line@ =~= without_cr(head[i]));
        }
        proof {
            assert(pieces::contents(out@.push(line)) =~= pieces::contents(out@).push(line@));
            assert(head.take(i + 1).map_values(strip) =~= head.take(i).map_values(strip).push(
                strip(head[i]),
            ));
        }
        out.push(line);
    }
    assert(head.take(head.len() as int) =~= head);
    if last.len() > 0 {
        assert(pieces::contents(out@.push(last)) =~= pieces::contents(out@) + seq![last@]);
        out.push(last);
    } else {
        assert(pieces::contents(out@) + Seq::<Seq<u8>>::empty() =~= pieces::contents(out@));
    }
    out
}

/// Reads the records of a file.
pub fn read_jsonl(bytes: &Vec<u8>) -> (read: Records)
    ensures
        text::texts(read.list@) == records(lines(bytes@)).0,
        read.list@.map_values(|r: String| r@) == records(lines(bytes@)).0,
        read.complete == records(lines(bytes@)).1,
{
    let parts = split_lines(bytes);
    let ghost all = lines(bytes@);
    let mut out: Vec<String> = Vec::new();
    assert(text::texts(out@) + records(all).0 =~= records(all).0);
    assert(all.skip(0) =~= all);
    for part in it: parts
        invariant
            it.seq() == parts@,
            all == pieces::contents(parts@),
            text::texts(out@) + records(all.skip(it.index() as int)).0 == records(all).0,
            records(all.skip(it.index() as int)).1 == records(all).1,
            all == lines(bytes@),
    {
        let ghost i = it.index() as int;
        proof {
            assert(part@ == all[i]);
            assert(all.skip(i)[0] == part@);
            assert(all.skip(i).drop_first() =~= all.skip(i + 1));
        }
        match utf8::decode(part) {
            None => {
                assert(text::texts(out@) + Seq::<Seq<char>>::empty() =~= text::texts(out@));
                return Records { list: out, complete: false };
            },
            Some(line) => {
                if !text::blank(&line) {
                    proof {
                        let rest = records(all.skip(i + 1)).0;
                        assert(text::texts(out@.push(line)) =~= text::texts(out@).push(line@));
                        assert(text::texts(out@) + (seq![line@] + rest) =~= text::texts(out@).push(
                            line@,
                        ) + rest);
                    }
                    out.push(line);
                }
            },
        }
    }
    assert(all.skip(all.len() as int) =~= Seq::<Seq<u8>>::empty());
    assert(text::texts(out@) + Seq::<Seq<char>>::empty() =~= text::texts(out@));
    Records { list: out, complete: true }
}

// ---------------------------------------------------------------------------
// Laws
// ---------------------------------------------------------------------------

/// Whether a text can stand on a line of its own and be read back: it is not
/// blank, holds no line feed and does not end with a carriage return.
pub open spec fn is_record(r: Seq<char>) -> bool {
    &&& !text::is_blank(r)
    &&& !r.contains('\n')
    &&& r.last() != '\r'
}

/// Whether a file ends where a line ends.
pub open spec fn ends_a_line(bytes: Seq<u8>) -> bool {
    bytes.len() == 0 || bytes.last() == LF
}

proof fn lemma_lines_append(bytes: Seq<u8>, line: Seq<u8>)
    requires
        ends_a_line(bytes),
        !line.contains(LF),
    ensures
        lines(bytes + line.push(LF)) == lines(bytes).push(without_cr(line)),
        ends_a_line(bytes + line.push(LF)),
{
    let strip = |l: Seq<u8>| without_cr(l);
    let parts = pieces::pieces(bytes, LF);
    let whole = bytes + line.push(LF);
    let stem = bytes + line;
    pieces::lemma_pieces(bytes, LF);
    assert(parts.last() =~= Seq::<u8>::empty());
    if bytes.len() == 0 {
        assert(stem =~= line);
        pieces::lemma_pieces_whole(line, LF);
        assert(parts.drop_last() =~= Seq::<Seq<u8>>::empty());
        assert(pieces::pieces(stem, LF) =~= parts.drop_last().push(line));
    } else {
        let front = bytes.drop_last();
        assert(front.push(LF) =~= bytes);
        pieces::lemma_pieces_around(front, LF, line);
        pieces::lemma_pieces_whole(line, LF);
        assert(parts.drop_last() =~= pieces::pieces(front, LF));
        assert(pieces::pieces(stem, LF) =~= parts.drop_last().push(line));
    }
    assert(whole.drop_last() =~= stem);
    assert(whole.last() == LF);
    let new_parts = pieces::pieces(whole, LF);
    assert(new_parts =~= parts.drop_last().push(line).push(Seq::empty()));
    assert(new_parts.drop_last() =~= parts.drop_last().push(line));
    assert(new_parts.drop_last().map_values(strip) =~= parts.drop_last().map_values(strip).push(
        without_cr(line),
    ));
    assert(lines(bytes) =~= parts.drop_last().map_values(strip));
    assert(lines(whole) =~= new_parts.drop_last().map_values(strip));
}

proof fn lemma_records_push(list: Seq<Seq<u8>>, line: Seq<u8>)
    requires
        records(list).1,
        valid_utf8(line),
        !text::is_blank(decode_utf8(line)),
    ensures
        records(list.push(line)) == (records(list).0.push(decode_utf8(line)), true),
    decreases list.len(),
{
    if list.len() == 0 {
        assert(list.push(line).drop_first() =~= list);
        assert(records(list) == (Seq::<Seq<char>>::empty(), true));
        assert(seq![decode_utf8(line)] + Seq::<Seq<char>>::empty() =~= Seq::<
            Seq<char>,
        >::empty().push(decode_utf8(line)));
    } else {
        let rest = list.drop_first();
        assert(list.push(line).drop_first() =~= rest.push(line));
        assert(list.push(line)[0] == list[0]);
        lemma_records_push(rest, line);
        let first = decode_utf8(list[0]);
        assert((seq![first] + records(rest).0).push(decode_utf8(line)) =~= seq![first] + records(
            rest,
        ).0.push(decode_utf8(line)));
    }
}

/// Records appended to a file are read back after those that it held: nothing
/// already there is lost or changed.
pub proof fn law_append_keeps(bytes: Seq<u8>, list: Seq<Seq<char>>)
    requires
        ends_a_line(bytes),
        records(lines(bytes)).1,
        forall|i: int| 0 <= i < list.len() ==> is_record(#[trigger] list[i]),
    ensures
        records(lines(bytes + framed(list))) == (records(lines(bytes)).0 + list, true),
        ends_a_line(bytes + framed(list)),
    decreases list.len(),
{
    if list.len() == 0 {
        assert(bytes + framed(list) =~= bytes);
        assert(records(lines(bytes)).0 + list =~= records(lines(bytes)).0);
    } else {
        let front = list.drop_last();
        let last = list.last();
        assert(is_record(list[list.len() - 1]));
        assert forall|i: int| 0 <= i < front.len() implies is_record(#[trigger] front[i]) by {
            assert(front[i] == list[i]);
        }
        law_append_keeps(bytes, front);
        let before = bytes + framed(front);
        let line = encode_utf8(last);
        assert(bytes + framed(list) =~= before + line.push(LF));
        utf8::lemma_ascii_byte(last, '\n');
        assert(!line.contains(LF));
        lemma_lines_append(before, line);
        assert(last.len() > 0);
        utf8::lemma_ascii_last(last, '\r');
        assert(without_cr(line) == line);
        encode_utf8_valid_utf8(last);
        encode_utf8_decode_utf8(last);
        lemma_records_push(lines(before), line);
        assert((records(lines(bytes)).0 + front).push(last) =~= records(lines(bytes)).0 + list);
    }
}

/// What was written is read back.
pub proof fn law_read_back(list: Seq<Seq<char>>)
    requires
        forall|i: int| 0 <= i < list.len() ==> is_record(#[trigger] list[i]),
    ensures
        records(lines(framed(list))) == (list, true),
{
    let nothing = Seq::<u8>::empty();
    let none = Seq::<Seq<char>>::empty();
    assert(pieces::pieces(nothing, LF).drop_last() =~= Seq::<Seq<u8>>::empty());
    assert(lines(nothing) =~= Seq::<Seq<u8>>::empty());
    law_append_keeps(nothing, list);
    assert(nothing + framed(list) =~= framed(list));
    assert(none + list =~= list);
}

/// The texts of values, given how a value is written.
pub open spec fn written<T>(values: Seq<T>, write: spec_fn(T) -> Seq<char>) -> Seq<Seq<char>> {
    values.map_values(write)
}

/// Values whose texts stand on a line each and are read back one by one are read
/// back from a file, all of them and in their order, after those that the file
/// held.
pub proof fn law_values_are_read_back<T>(
    bytes: Seq<u8>,
    held: Seq<T>,
    values: Seq<T>,
    write: spec_fn(T) -> Seq<char>,
    read: spec_fn(Seq<char>) -> Option<T>,
)
    requires
        ends_a_line(bytes),
        records(lines(bytes)) == (written(held, write), true),
        forall|i: int| 0 <= i < held.len() ==> read(write(#[trigger] held[i])) == Some(held[i]),
        forall|i: int|
            0 <= i < values.len() ==> is_record(write(#[trigger] values[i])) && read(
                write(values[i]),
            ) == Some(values[i]),
    ensures
        ({
            let (texts, complete) = records(lines(bytes + framed(written(values, write))));
            &&& complete
            &&& texts.map_values(read) == (held + values).map_values(|v: T| Some(v))
        }),
{
    let list = written(values, write);
    assert forall|i: int| 0 <= i < list.len() implies is_record(#[trigger] list[i]) by {
        assert(list[i] == write(values[i]));
    }
    law_append_keeps(bytes, list);
    let texts = written(held, write) + list;
    assert(texts.map_values(read) =~= (held + values).map_values(|v: T| Some(v))) by {
        assert forall|i: int| 0 <= i < texts.len() implies read(#[trigger] texts[i]) == Some(
            (held + values)[i],
        ) by {
            if i < held.len() {
                assert(texts[i] == write(held[i]));
            } else {
                assert(texts[i] == write(values[i - held.len()]));
            }
        }
    }
}

/// Every record that is read is a text with something on its line.
pub proof fn law_records_are_not_blank(list: Seq<Seq<u8>>)
    ensures
        forall|i: int| 0 <= i < records(list).0.len() ==> !text::is_blank(
            #[trigger] records(list).0[i],
        ),
    decreases list.len(),
{
    if list.len() > 0 {
        law_records_are_not_blank(list.drop_first());
        let rest = records(list.drop_first()).0;
        let all = records(list).0;
        assert forall|i: int| 0 <= i < all.len() implies !text::is_blank(#[trigger] all[i]) by {
            if all.len() > rest.len() && i > 0 {
                assert(all[i] == rest[i - 1]);
            } else if all.len() == rest.len() {
                assert(all[i] == rest[i]);
            }
        }
    }
}

/// The lines of a file, one after the other: what stands before a line feed, but
/// for a carriage return right before it, is a line, and the lines of the rest
/// follow; what no line feed ends is a line as it is, unless it is empty.
pub proof fn law_lines(line: Seq<u8>, rest: Seq<u8>)
    requires
        !line.contains(10),
    ensures
        lines(line.push(10) + rest) == seq![
            if line.len() > 0 && line.last() == 13 {
                line.drop_last()
            } else {
                line
            },
        ] + lines(rest),
        line.len() == 0 ==> lines(line).len() == 0,
        line.len() > 0 ==> lines(line) == seq![line],
{
    let strip = |l: Seq<u8>| without_cr(l);
    pieces::lemma_pieces_around(line, LF, rest);
    pieces::lemma_pieces_whole(line, LF);
    pieces::lemma_pieces(rest, LF);
    let p = pieces::pieces(rest, LF);
    let all = seq![line] + p;
    assert(all.last() == p.last());
    assert(all.drop_last() =~= seq![line] + p.drop_last());
    assert(all.drop_last().map_values(strip) =~= seq![without_cr(line)] + p.drop_last().map_values(
        strip,
    ));
    assert(lines(line.push(10) + rest) =~= seq![without_cr(line)] + lines(rest));
    assert(seq![line].drop_last().map_values(strip) =~= Seq::<Seq<u8>>::empty());
    if line.len() > 0 {
        assert(lines(line) =~= seq![line]);
    }
}

/// The records are the lines before the first that is not valid UTF-8, decoded,
/// in their order, and but for those that hold white space only; and the file was
/// read to its end exactly where there is no such line.
pub proof fn law_records(list: Seq<Seq<u8>>)
    ensures
        exists|m: int|
            {
                &&& 0 <= m <= list.len()
                &&& forall|i: int| 0 <= i < m ==> valid_utf8(#[trigger] list[i])
                &&& m < list.len() ==> !valid_utf8(list[m])
                &&& records(list).1 == (m == list.len())
                &&& records(list).0 == (#[trigger] list.take(m)).map_values(
                    |line: Seq<u8>| decode_utf8(line),
                ).filter(
                    |r: Seq<char>|
                        exists|i: int| 0 <= i < r.len() && !text::is_white_space(#[trigger] r[i]),
                )
            },
    decreases list.len(),
{
    let decode = |line: Seq<u8>| decode_utf8(line);
    let solid = |r: Seq<char>|
        exists|i: int| 0 <= i < r.len() && !text::is_white_space(#[trigger] r[i]);
    if list.len() == 0 {
        reveal(Seq::filter);
        assert(list.take(0).map_values(decode).filter(solid) =~= records(list).0);
    } else if !valid_utf8(list[0]) {
        reveal(Seq::filter);
        assert(list.take(0).map_values(decode).filter(solid) =~= records(list).0);
    } else {
        let tail = list.drop_first();
        law_records(tail);
        let m = choose|m: int|
            {
                &&& 0 <= m <= tail.len()
                &&& forall|i: int| 0 <= i < m ==> valid_utf8(#[trigger] tail[i])
                &&& m < tail.len() ==> !valid_utf8(tail[m])
                &&& records(tail).1 == (m == tail.len())
                &&& records(tail).0 == (#[trigger] tail.take(m)).map_values(decode).filter(solid)
            };
        let first = decode_utf8(list[0]);
        let rest = tail.take(m).map_values(decode);
        assert forall|i: int| 0 <= i < m + 1 implies valid_utf8(#[trigger] list[i]) by {
            if i > 0 {
                assert(list[i] == tail[i - 1]);
            }
        }
        if m < tail.len() {
            assert(list[m + 1] == tail[m]);
        }
        assert(list.take(m + 1).map_values(decode) =~= seq![first] + rest);
        Seq::filter_distributes_over_add(seq![first], rest, solid);
        reveal_with_fuel(Seq::filter, 2);
        assert(seq![first].drop_last() =~= Seq::<Seq<char>>::empty());
        assert(solid(first) <==> !text::is_blank(first));
        if solid(first) {
            assert(seq![first].filter(solid) =~= seq![first]);
        } else {
            assert(seq![first].filter(solid) =~= Seq::<Seq<char>>::empty());
            assert(Seq::<Seq<char>>::empty() + rest.filter(solid) =~= rest.filter(solid));
        }
        assert(records(list).0 == list.take(m + 1).map_values(decode).filter(solid));
    }
}

/// A file is the encoded records one after the other, a line feed behind each.
pub proof fn law_framed(list: Seq<String>)
    ensures
        framed(text::texts(list)) == list.map_values(
            |r: String| encode_utf8(r@).push(10),
        ).flatten(),
    decreases list.len(),
{
    let row = |r: String| encode_utf8(r@).push(10);
    let rows = list.map_values(row);
    rows.lemma_flatten_and_flatten_alt_are_equivalent();
    if list.len() > 0 {
        let front = list.drop_last();
        law_framed(front);
        front.map_values(row).lemma_flatten_and_flatten_alt_are_equivalent();
        assert(rows.drop_last() =~= front.map_values(row));
        assert(text::texts(list).drop_last() =~= text::texts(front));
    }
}

} // verus!
