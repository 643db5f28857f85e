//! Splitting a sequence at a separator.

use vstd::prelude::*;

verus! {

/// What stands between the occurrences of `sep` in `s`: one piece more than
/// there are separators, some of them possibly empty.
pub open spec fn pieces<T>(s: Seq<T>, sep: T) -> Seq<Seq<T>>
    decreases s.len(),
{
    if s.len() == 0 {
        seq![Seq::empty()]
    } else {
        let before = pieces(s.drop_last(), sep);
        if s.last() == sep {
            before.push(Seq::empty())
        } else {
            before.drop_last().push(before.last().push(s.last()))
        }
    }
}

/// There is always a piece, and no piece holds the separator.
pub proof fn lemma_pieces<T>(s: Seq<T>, sep: T)
    ensures
        pieces(s, sep).len() >= 1,
        forall|i: int| 0 <= i < pieces(s, sep).len() ==> !(#[trigger] pieces(s, sep)[i]).contains(
            sep,
        ),
    decreases s.len(),
{
    if s.len() > 0 {
        lemma_pieces(s.drop_last(), sep);
        let before = pieces(s.drop_last(), sep);
        assert forall|i: int| 0 <= i < pieces(s, sep).len() implies !(#[trigger] pieces(
            s,
            sep,
        )[i]).contains(sep) by {
            if s.last() != sep && i == before.len() - 1 {
                assert(!before[i].contains(sep));
                let piece = pieces(s, sep)[i];
                assert(piece == before[i].push(s.last()));
                assert forall|j: int| 0 <= j < piece.len() implies piece[j] != sep by {
                    if j < before[i].len() {
                        assert(before[i][j] == piece[j]);
                    }
                }
            } else if i < before.len() {
                assert(pieces(s, sep)[i] == before[i]);
            }
        }
    }
}

/// Splitting is done on each side of a separator on its own.
pub proof fn lemma_pieces_around<T>(a: Seq<T>, sep: T, b: Seq<T>)
    ensures
        pieces(a.push(sep) + b, sep) == pieces(a, sep) + pieces(b, sep),
    decreases b.len(),
{
    if b.len() == 0 {
        assert(a.push(sep) + b =~= a.push(sep));
        assert(a.push(sep).drop_last() =~= a);
        assert(pieces(a, sep).push(Seq::empty()) =~= pieces(a, sep) + pieces(b, sep));
    } else {
        let s = a.push(sep) + b;
        assert(s.drop_last() =~= a.push(sep) + b.drop_last());
        lemma_pieces_around(a, sep, b.drop_last());
        lemma_pieces(b.drop_last(), sep);
        let left = pieces(a, sep);
        let right = pieces(b.drop_last(), sep);
        assert((left + right).last() == right.last());
        assert((left + right).drop_last() =~= left + right.drop_last());
        assert(pieces(s, sep) =~= left + pieces(b, sep));
    }
}

/// Without a separator there is one piece.
pub proof fn lemma_pieces_whole<T>(s: Seq<T>, sep: T)
    requires
        !s.contains(sep),
    ensures
        pieces(s, sep) == seq![s],
    decreases s.len(),
{
    if s.len() > 0 {
        assert(s[s.len() - 1] == s.last());
        assert forall|i: int| 0 <= i < s.drop_last().len() implies s.drop_last()[i] != sep by {
            assert(s.drop_last()[i] == s[i]);
        }
        lemma_pieces_whole(s.drop_last(), sep);
        assert(seq![s.drop_last()].drop_last() =~= Seq::<Seq<T>>::empty());
        assert(s.drop_last().push(s.last()) =~= s);
        assert(pieces(s, sep) =~= seq![s]);
    } else {
        assert(s =~= Seq::<T>::empty());
    }
}

/// A prefix without a separator belongs to the first piece.
pub proof fn lemma_pieces_prefix<T>(a: Seq<T>, s: Seq<T>, sep: T)
    requires
        !a.contains(sep),
    ensures
        pieces(a + s, sep) == seq![a + pieces(s, sep)[0]] + pieces(s, sep).skip(1),
    decreases s.len(),
{
    lemma_pieces(s, sep);
    if s.len() == 0 {
        lemma_pieces_whole(a, sep);
        assert(a + s =~= a);
        assert(a + Seq::<T>::empty() =~= a);
        assert(pieces(s, sep).skip(1) =~= Seq::<Seq<T>>::empty());
        assert(pieces(a, sep) =~= seq![a] + Seq::<Seq<T>>::empty());
    } else {
        let front = s.drop_last();
        lemma_pieces_prefix(a, front, sep);
        lemma_pieces(front, sep);
        assert((a + s).drop_last() =~= a + front);
        let p = pieces(front, sep);
        let q = seq![a + p[0]] + p.skip(1);
        if s.last() == sep {
            assert(q.push(Seq::empty()) =~= seq![a + p[0]] + p.push(Seq::empty()).skip(1));
        } else {
            let grown = p.drop_last().push(p.last().push(s.last()));
            if p.len() == 1 {
                assert((a + p[0]).push(s.last()) =~= a + p[0].push(s.last()));
            }
            assert(q.drop_last().push(q.last().push(s.last())) =~= seq![a + grown[0]] + grown.skip(
                1,
            ));
        }
    }
}

/// A suffix without a separator belongs to the last piece.
pub proof fn lemma_pieces_suffix<T>(s: Seq<T>, t: Seq<T>, sep: T)
    requires
        !t.contains(sep),
    ensures
        pieces(s + t, sep) == pieces(s, sep).drop_last().push(pieces(s, sep).last() + t),
    decreases t.len(),
{
    lemma_pieces(s, sep);
    let p = pieces(s, sep);
    if t.len() == 0 {
        assert(s + t =~= s);
        assert(p.last() + t =~= p.last());
        assert(p.drop_last().push(p.last()) =~= p);
    } else {
        let front = t.drop_last();
        assert(t.last() == t[t.len() - 1]);
        assert forall|i: int| 0 <= i < front.len() implies front[i] != sep by {
            assert(front[i] == t[i]);
        }
        lemma_pieces_suffix(s, front, sep);
        assert((s + t).drop_last() =~= s + front);
        let q = p.drop_last().push(p.last() + front);
        assert(q.drop_last() =~= p.drop_last());
        assert((p.last() + front).push(t.last()) =~= p.last() + t);
    }
}

/// What each vector of a list holds.
pub open spec fn contents<T>(list: Seq<Vec<T>>) -> Seq<Seq<T>> {
    list.map_values(|v: Vec<T>| v@)
}

/// Whether `done` and `current` together are the pieces of `s`.
spec fn split_so_far<T>(done: Seq<Vec<T>>, current: Seq<T>, s: Seq<T>, sep: T) -> bool {
    contents(done).push(current) == pieces(s, sep)
}

proof fn lemma_split_step<T>(done: Seq<Vec<T>>, current: Vec<T>, s: Seq<T>, i: int, sep: T)
    requires
        0 <= i < s.len(),
        split_so_far(done, current@, s.take(i), sep),
    ensures
        s[i] == sep ==> split_so_far(done.push(current), Seq::empty(), s.take(i + 1), sep),
        s[i] != sep ==> split_so_far(done, current@.push(s[i]), s.take(i + 1), sep),
{
    assert(s.take(i + 1).drop_last() =~= s.take(i));
    assert(s.take(i + 1).last() == s[i]);
    let before = contents(done).push(current@);
    if s[i] == sep {
        assert(contents(done.push(current)) =~= before);
        assert(contents(done.push(current)).push(Seq::empty()) =~= before.push(Seq::empty()));
    } else {
        assert(before.drop_last() =~= contents(done));
        assert(before.last() == current@);
    }
}

/// The pieces of a text between the occurrences of `sep`.
pub fn split_chars(s: &Vec<char>, sep: char) -> (list: Vec<Vec<char>>)
    ensures
        contents(list@) == pieces(s@, sep),
        list@.map_values(|v: Vec<char>| v@) == pieces(s@, sep),
{
    let mut done: Vec<Vec<char>> = Vec::new();
    let mut current: Vec<char> = Vec::new();
    let mut i: usize = 0;
    assert(s@.take(0) =~= Seq::<char>::empty());
    assert(contents(done@).push(current@) =~= seq![Seq::<char>::empty()]);
    while i < s.len()
        invariant
            i <= s@.len(),
            split_so_far(done@, current@, s@.take(i as int), sep),
        decreases s@.len() - i,
    {
        proof {
            lemma_split_step(done@, current, s@, i as int, sep);
        }
        if s[i] == sep {
            done.push(current);
            current = Vec::new();
        } else {
            current.push(s[i]);
        }
        i += 1;
    }
    assert(s@.take(i as int) =~= s@);
    assert(contents(done@.push(current)) =~= contents(done@).push(current@));
    done.push(current);
    done
}

/// The pieces of a byte string between the occurrences of `sep`.
pub fn split_bytes(s: &Vec<u8>, sep: u8) -> (list: Vec<Vec<u8>>)
    ensures
        contents(list@) == pieces(s@, sep),
        list@.map_values(|v: Vec<u8>| v@) == pieces(s@, sep),
{
    let mut done: Vec<Vec<u8>> = Vec::new();
    let mut current: Vec<u8> = Vec::new();
    let mut i: usize = 0;
    assert(s@.take(0) =~= Seq::<u8>::empty());
    assert(contents(done@).push(current@) =~= seq![Seq::<u8>::empty()]);
    while i < s.len()
        invariant
            i <= s@.len(),
            split_so_far(done@, current@, s@.take(i as int), sep),
        decreases s@.len() - i,
    {
        proof {
            lemma_split_step(done@, current, s@, i as int, sep);
        }
        if s[i] == sep {
            done.push(current);
            current = Vec::new();
        } else {
            current.push(s[i]);
        }
        i += 1;
    }
    assert(s@.take(i as int) =~= s@);
    assert(contents(done@.push(current)) =~= contents(done@).push(current@));
    done.push(current);
    done
}

} // verus!
