//! Paths as text, with `/` between their components.

use crate::pieces;
use crate::text;
use vstd::prelude::*;

verus! {

/// Whether a path starts at the root.
pub open spec fn is_absolute(path: Seq<char>) -> bool {
    path.len() > 0 && path[0] == '/'
}

/// `name` as seen from the directory `base`. An absolute `name` replaces it.
pub open spec fn joined(base: Seq<char>, name: Seq<char>) -> Seq<char> {
    if is_absolute(name) || base.len() == 0 {
        name
    } else if base.last() == '/' {
        base + name
    } else {
        base.push('/') + name
    }
}

/// Whether a piece between slashes names something: `""` and `"."` do not.
pub open spec fn is_name(piece: Seq<char>) -> bool {
    piece.len() > 0 && piece != seq!['.']
}

/// The component that a path begins with and that names nothing: the root, or
/// the directory `.` that it is relative to.
pub open spec fn lead(path: Seq<char>) -> Seq<Seq<char>> {
    if is_absolute(path) {
        seq![seq!['/']]
    } else if pieces::pieces(path, '/')[0] == seq!['.'] {
        seq![seq!['.']]
    } else {
        Seq::empty()
    }
}

/// The names along a path.
pub open spec fn names(path: Seq<char>) -> Seq<Seq<char>> {
    pieces::pieces(path, '/').filter(|piece: Seq<char>| is_name(piece))
}

/// The components of a path. Repeated slashes, a trailing slash and `.` after
/// the first component count for nothing.
pub open spec fn components(path: Seq<char>) -> Seq<Seq<char>> {
    lead(path) + names(path)
}

/// Whether `path` is `base` or lies below it, component by component.
pub open spec fn is_within(base: Seq<char>, path: Seq<char>) -> bool {
    components(base).is_prefix_of(components(path))
}

/// Whether a component names a file or a directory below its parent.
pub open spec fn is_proper_name(component: Seq<char>) -> bool {
    component != seq!['/'] && component != seq!['.'] && component != seq!['.', '.']
}

/// The last component of a path, where that is a name.
pub open spec fn file_name_of(path: Seq<char>) -> Option<Seq<char>> {
    let list = components(path);
    if list.len() > 0 && is_proper_name(list.last()) {
        Some(list.last())
    } else {
        None
    }
}

/// A path with the given components.
pub open spec fn rendered(list: Seq<Seq<char>>) -> Seq<char>
    decreases list.len(),
{
    if list.len() == 0 {
        Seq::empty()
    } else {
        joined(rendered(list.drop_last()), list.last())
    }
}

/// The path of a path's parent directory. The root and the empty path have none.
pub open spec fn parent_of(path: Seq<char>) -> Option<Seq<char>> {
    let list = components(path);
    if list.len() > 0 && list.last() != seq!['/'] {
        Some(rendered(list.drop_last()))
    } else {
        None
    }
}

/// `name` as seen from the directory `base`.
pub fn join(base: &str, name: &str) -> (path: String)
    ensures
        path@ == joined(base@, name@),
        path@ == if (name@.len() > 0 && name@[0] == '/') || base@.len() == 0 {
            name@
        } else if base@.last() == '/' {
            base@ + name@
        } else {
            base@.push('/') + name@
        },
{
    let base_chars = text::chars_of(base);
    let name_chars = text::chars_of(name);
    if (name_chars.len() > 0 && name_chars[0] == '/') || base_chars.len() == 0 {
        return name.to_owned();
    }
    let mut path = base.to_owned();
    if base_chars[base_chars.len() - 1] != '/' {
        path.push('/');
    }
    path.append(name);
    path
}

/// The components of a path.
pub fn split(path: &str) -> (list: Vec<String>)
    ensures
        text::texts(list@) == components(path@),
        list@.map_values(|c: String| c@) == components(path@),
{
    let chars = text::chars_of(path);
    let parts = pieces::split_chars(&chars, '/');
    let ghost all = pieces::pieces(path@, '/');
    proof {
        pieces::lemma_pieces(path@, '/');
        assert(all[0] == parts@[0]@);
    }
    let mut out: Vec<String> = Vec::new();
    if chars.len() > 0 && chars[0] == '/' {
        let mut root = String::new();
        root.push('/');
        assert(root@ =~= seq!['/']);
        out.push(root);
    } else if parts[0].len() == 1 && parts[0][0] == '.' {
        let mut here = String::new();
        here.push('.');
        assert(here@ =~= seq!['.']);
        assert(all[0] =~= seq!['.']);
        out.push(here);
    } else {
        assert(all[0] != seq!['.']) by {
            if all[0] == seq!['.'] {
                assert(all[0].len() == 1 && all[0][0] == '.');
            }
        }
    }
    let ghost keep = |piece: Seq<char>| is_name(piece);
    let ghost head = lead(path@);
    proof {
        assert(text::texts(out@) =~= head);
        assert(all.take(0) =~= Seq::<Seq<char>>::empty());
        reveal_with_fuel(Seq::filter, 1);
        assert(head + Seq::<Seq<char>>::empty() =~= head);
    }
    let mut i: usize = 0;
    while i < parts.len()
        invariant
            i <= parts@.len(),
            all == pieces::contents(parts@),
            keep == (|piece: Seq<char>| is_name(piece)),
            text::texts(out@) == head + all.take(i as int).filter(keep),
        decreases parts@.len() - i,
    {
        let part = &parts[i];
        let ghost piece = all[i as int];
        proof {
            assert(piece == part@);
            assert(all.take(i + 1).drop_last() =~= all.take(i as int));
            assert(all.take(i + 1).last() == piece);
            reveal_with_fuel(Seq::filter, 1);
        }
        if part.len() == 0 || (part.len() == 1 && part[0] == '.') {
            proof {
                if part@.len() == 1 {
                    assert(piece =~= seq!['.']);
                }
                assert(!keep(piece));
            }
        } else {
            let name = text::text_of(part, 0, part.len());
            proof {
                assert(name@ =~= piece);
                if piece == seq!['.'] {
                    assert(part@.len() == 1 && part@[0] == '.');
                }
                assert(keep(piece));
                assert(text::texts(out@.push(name)) =~= text::texts(out@).push(name@));
                assert((head + all.take(i as int).filter(keep)).push(name@) =~= head + all.take(
                    i as int,
                ).filter(keep).push(name@));
            }
            out.push(name);
        }
        i += 1;
    }
    assert(all.take(i as int) =~= all);
    out
}

/// Whether `path` is `base` or lies below it.
pub fn within(base: &str, path: &str) -> (yes: bool)
    ensures
        yes == is_within(base@, path@),
        yes == (components(base@).len() <= components(path@).len() && components(path@).take(
            components(base@).len() as int,
        ) == components(base@)),
{
    let inner = split(base);
    let outer = split(path);
    let ghost a = components(base@);
    let ghost b = components(path@);
    assert(a.len() == inner@.len() && b.len() == outer@.len());
    if inner.len() > outer.len() {
        return false;
    }
    let mut i: usize = 0;
    while i < inner.len()
        invariant
            i <= inner@.len() <= outer@.len(),
            a == components(base@),
            b == components(path@),
            text::texts(inner@) == a,
            text::texts(outer@) == b,
            a.take(i as int) == b.take(i as int),
        decreases inner@.len() - i,
    {
        assert(a[i as int] == inner@[i as int]@ && b[i as int] == outer@[i as int]@);
        if !text::same_text(&inner[i], &outer[i]) {
            proof {
                if a.is_prefix_of(b) {
                    assert(a[i as int] == b.subrange(0, a.len() as int)[i as int]);
                }
            }
            return false;
        }
        assert(a.take(i + 1) =~= a.take(i as int).push(a[i as int]));
        assert(b.take(i + 1) =~= b.take(i as int).push(b[i as int]));
        i += 1;
    }
    assert(a.take(i as int) =~= a);
    true
}

/// Whether a component names a file or a directory below its parent.
fn proper_name(component: &String) -> (yes: bool)
    ensures
        yes == is_proper_name(component@),
{
    let chars = text::chars_of(component);
    let ghost c = component@;
    if chars.len() == 1 && (chars[0] == '/' || chars[0] == '.') {
        assert(c =~= seq!['/'] || c =~= seq!['.']);
        return false;
    }
    if chars.len() == 2 && chars[0] == '.' && chars[1] == '.' {
        assert(c =~= seq!['.', '.']);
        return false;
    }
    assert(c != seq!['/'] && c != seq!['.'] && c != seq!['.', '.']) by {
        assert(seq!['/'].len() == 1 && seq!['/'][0] == '/');
        assert(seq!['.'].len() == 1 && seq!['.'][0] == '.');
        let up = seq!['.', '.'];
        assert(up.len() == 2 && up[0] == '.' && up[1] == '.');
    }
    true
}

/// The last component of a path, where that is a name.
pub fn file_name(path: &str) -> (name: Option<String>)
    ensures
        match name {
            Some(n) => file_name_of(path@) == Some(n@),
            None => file_name_of(path@) is None,
        },
{
    let mut list = split(path);
    let ghost all = components(path@);
    assert(all.len() == list@.len());
    match list.pop() {
        None => None,
        Some(last) => {
            assert(all.last() == last@);
            if proper_name(&last) {
                Some(last)
            } else {
                None
            }
        },
    }
}

/// The path of a path's parent directory.
pub fn parent(path: &str) -> (dir: Option<String>)
    ensures
        match dir {
            Some(d) => parent_of(path@) == Some(d@),
            None => parent_of(path@) is None,
        },
{
    let mut list = split(path);
    let ghost all = components(path@);
    assert(all.len() == list@.len());
    match list.pop() {
        None => None,
        Some(last) => {
            assert(all.last() == last@);
            let chars = text::chars_of(&last);
            if chars.len() == 1 && chars[0] == '/' {
                assert(last@ =~= seq!['/']);
                return None;
            }
            assert(last@ != seq!['/']) by {
                assert(seq!['/'].len() == 1 && seq!['/'][0] == '/');
            }
            assert(text::texts(list@) =~= all.drop_last());
            Some(render(&list))
        },
    }
}

/// A path with the given components.
fn render(list: &Vec<String>) -> (path: String)
    ensures
        path@ == rendered(text::texts(list@)),
{
    let ghost all = text::texts(list@);
    let mut path = String::new();
    let mut i: usize = 0;
    assert(all.take(0) =~= Seq::<Seq<char>>::empty());
    while i < list.len()
        invariant
            i <= list@.len(),
            all == text::texts(list@),
            path@ == rendered(all.take(i as int)),
        decreases list@.len() - i,
    {
        path = join(&path, &list[i]);
        assert(all.take(i + 1).drop_last() =~= all.take(i as int));
        assert(all.take(i + 1).last() == list@[i as int]@);
        i += 1;
    }
    assert(all.take(i as int) =~= all);
    path
}

/// Whether a path goes up on its way: one of its components is `..`.
pub open spec fn is_climbing(path: Seq<char>) -> bool {
    components(path).contains(seq!['.', '.'])
}

/// Whether a path goes up on its way.
pub fn climbs(path: &str) -> (yes: bool)
    ensures
        yes == is_climbing(path@),
        yes == components(path@).contains(seq!['.', '.']),
{
    let list = split(path);
    let ghost all = text::texts(list@);
    let up: Vec<char> = vec!['.', '.'];
    assert(up@ =~= seq!['.', '.']);
    let up = text::text_of(&up, 0, 2);
    assert(up@ =~= seq!['.', '.']);
    let mut i: usize = 0;
    while i < list.len()
        invariant
            i <= list@.len(),
            all == text::texts(list@),
            all == components(path@),
            up@ == seq!['.', '.'],
            forall|j: int| 0 <= j < i ==> #[trigger] all[j] != seq!['.', '.'],
        decreases list@.len() - i,
    {
        if text::same_text(&list[i], &up) {
            assert(all[i as int] == seq!['.', '.']);
            return true;
        }
        i += 1;
    }
    false
}

// ---------------------------------------------------------------------------
// Laws
// ---------------------------------------------------------------------------

proof fn lemma_names_join(base: Seq<char>, name: Seq<char>)
    requires
        base.len() > 0,
        !is_absolute(name),
    ensures
        names(joined(base, name)) == names(base) + names(name),
        lead(joined(base, name)) == lead(base),
{
    let keep = |piece: Seq<char>| is_name(piece);
    let path = joined(base, name);
    let stem = if base.last() == '/' {
        base.drop_last()
    } else {
        base
    };
    assert(path =~= stem.push('/') + name);
    pieces::lemma_pieces_around(stem, '/', name);
    pieces::lemma_pieces(stem, '/');
    pieces::lemma_pieces(base, '/');
    Seq::filter_distributes_over_add(pieces::pieces(stem, '/'), pieces::pieces(name, '/'), keep);
    if base.last() == '/' {
        assert(stem.push('/') =~= base);
        assert(base.drop_last() =~= stem);
        let parts = pieces::pieces(stem, '/');
        assert(pieces::pieces(base, '/') == parts.push(Seq::empty()));
        assert(parts.push(Seq::empty()).drop_last() =~= parts);
        reveal_with_fuel(Seq::filter, 1);
        assert(!keep(Seq::empty()));
        assert(names(base) =~= names(stem));
        assert(pieces::pieces(base, '/')[0] == parts[0]);
    }
    assert(pieces::pieces(path, '/')[0] == pieces::pieces(stem, '/')[0]);
    assert(path[0] == base[0]);
}

pub(crate) proof fn lemma_filter_from<T>(s: Seq<T>, keep: spec_fn(T) -> bool, i: int)
    requires
        0 <= i < s.filter(keep).len(),
    ensures
        s.contains(s.filter(keep)[i]),
    decreases s.len(),
{
    reveal(Seq::filter);
    let front = s.drop_last();
    if i < front.filter(keep).len() {
        lemma_filter_from(front, keep, i);
        let k = choose|k: int| 0 <= k < front.len() && front[k] == front.filter(keep)[i];
        assert(s[k] == s.filter(keep)[i]);
    } else {
        assert(s[s.len() - 1] == s.filter(keep)[i]);
    }
}

/// Joining a relative path to a directory appends its names to the components
/// of the directory.
pub proof fn law_join_appends(base: Seq<char>, name: Seq<char>)
    requires
        base.len() > 0,
        !is_absolute(name),
    ensures
        components(joined(base, name)) == components(base) + names(name),
        is_within(base, joined(base, name)),
{
    lemma_names_join(base, name);
    let a = components(base);
    let b = components(joined(base, name));
    assert(b =~= a + names(name));
    assert(b.subrange(0, a.len() as int) =~= a);
}

pub(crate) proof fn lemma_names_of_name(name: Seq<char>)
    requires
        is_name(name),
        !name.contains('/'),
    ensures
        names(name) == seq![name],
{
    pieces::lemma_pieces_whole(name, '/');
    reveal_with_fuel(Seq::filter, 2);
    assert(seq![name].drop_last() =~= Seq::<Seq<char>>::empty());
    assert(names(name) =~= seq![name]);
}

pub(crate) proof fn lemma_components_of_nothing()
    ensures
        components(Seq::empty()) == Seq::<Seq<char>>::empty(),
{
    let nothing = Seq::<char>::empty();
    pieces::lemma_pieces_whole(nothing, '/');
    assert(seq!['.'].len() == 1);
    reveal_with_fuel(Seq::filter, 2);
    assert(seq![nothing].drop_last() =~= Seq::<Seq<char>>::empty());
    assert(components(nothing) =~= Seq::<Seq<char>>::empty());
}

/// A plain file name joined to a directory is a file directly in it: the
/// directory's components and the name, which is the path's file name.
pub proof fn law_join_file(base: Seq<char>, name: Seq<char>)
    requires
        is_name(name),
        name != seq!['.', '.'],
        !name.contains('/'),
    ensures
        components(joined(base, name)) == components(base).push(name),
        is_within(base, joined(base, name)),
        file_name_of(joined(base, name)) == Some(name),
{
    assert(!is_absolute(name)) by {
        if is_absolute(name) {
            assert(name.contains(name[0]));
        }
    }
    lemma_names_of_name(name);
    if base.len() > 0 {
        law_join_appends(base, name);
    } else {
        assert(base =~= Seq::<char>::empty());
        lemma_components_of_nothing();
        pieces::lemma_pieces_whole(name, '/');
        assert(components(base).is_prefix_of(components(name)));
    }
    assert(components(joined(base, name)) =~= components(base).push(name));
    assert(name != seq!['/']) by {
        assert(seq!['/'][0] == '/');
        assert(seq!['/'].contains('/'));
    }
}

/// The components of a path: the root or a leading `.`, and then what stands
/// between the slashes, but for nothing and `.`.
pub proof fn law_components(path: Seq<char>)
    ensures
        components(path) == (if path.len() > 0 && path[0] == '/' {
            seq![seq!['/']]
        } else if pieces::pieces(path, '/')[0] == seq!['.'] {
            seq![seq!['.']]
        } else {
            Seq::empty()
        }) + pieces::pieces(path, '/').filter(
            |piece: Seq<char>| piece.len() > 0 && piece != seq!['.'],
        ),
{
    let f = |piece: Seq<char>| is_name(piece);
    let g = |piece: Seq<char>| piece.len() > 0 && piece != seq!['.'];
    assert(f =~= g);
}

/// The file name of a path is its last component, unless that is the root, `.` or
/// `..`, or there is none.
pub proof fn law_file_name(path: Seq<char>)
    ensures
        file_name_of(path) == if components(path).len() == 0 || components(path).last() == seq!['/']
            || components(path).last() == seq!['.'] || components(path).last() == seq!['.', '.'] {
            None
        } else {
            Some(components(path).last())
        },
{
}

proof fn lemma_names_apart(path: Seq<char>)
    ensures
        forall|i: int|
            0 <= i < names(path).len() ==> is_name(#[trigger] names(path)[i]) && !names(
                path,
            )[i].contains('/'),
{
    let all = pieces::pieces(path, '/');
    let keep = |piece: Seq<char>| is_name(piece);
    pieces::lemma_pieces(path, '/');
    assert forall|i: int| 0 <= i < names(path).len() implies is_name(#[trigger] names(path)[i])
        && !names(path)[i].contains('/') by {
        all.lemma_filter_pred(keep, i);
        lemma_filter_from(all, keep, i);
        let j = choose|j: int| 0 <= j < all.len() && all[j] == all.filter(keep)[i];
        assert(!all[j].contains('/'));
    }
}

proof fn lemma_rendered(list: Seq<Seq<char>>)
    requires
        forall|i: int|
            0 <= i < list.len() ==> (is_name(#[trigger] list[i]) && !list[i].contains('/')) || (i
                == 0 && (list[i] == seq!['/'] || list[i] == seq!['.'])),
    ensures
        components(rendered(list)) == list,
        list.len() > 0 ==> rendered(list).len() > 0,
    decreases list.len(),
{
    lemma_components_of_nothing();
    if list.len() == 0 {
        assert(list =~= Seq::<Seq<char>>::empty());
    } else {
        let front = list.drop_last();
        let last = list.last();
        assert(last == list[list.len() - 1]);
        assert forall|i: int| 0 <= i < front.len() implies (is_name(#[trigger] front[i])
            && !front[i].contains('/')) || (i == 0 && (front[i] == seq!['/'] || front[i]
            == seq!['.'])) by {
            assert(front[i] == list[i]);
        }
        lemma_rendered(front);
        if front.len() == 0 {
            assert(rendered(front) =~= Seq::<char>::empty());
            assert(list =~= seq![last]);
            lemma_single_component(last);
        } else {
            lemma_names_of_name(last);
            if is_absolute(last) {
                assert(last.contains(last[0]));
            }
            law_join_appends(rendered(front), last);
            assert(list =~= front + seq![last]);
        }
    }
}

proof fn lemma_single_component(c: Seq<char>)
    requires
        (is_name(c) && !c.contains('/')) || c == seq!['/'] || c == seq!['.'],
    ensures
        components(c) == seq![c],
        c.len() > 0,
        joined(Seq::empty(), c) == c,
{
    let root = seq!['/'];
    let dot = seq!['.'];
    let nothing = Seq::<char>::empty();
    assert(root.len() == 1 && root[0] == '/' && dot.len() == 1 && dot[0] == '.');
    if c == root {
        pieces::lemma_pieces_around(nothing, '/', nothing);
        pieces::lemma_pieces_whole(nothing, '/');
        assert(nothing.push('/') + nothing =~= root);
        reveal_with_fuel(Seq::filter, 3);
        let parts = pieces::pieces(root, '/');
        assert(parts =~= seq![nothing, nothing]);
        assert(parts.drop_last() =~= seq![nothing]);
        assert(seq![nothing].drop_last() =~= Seq::<Seq<char>>::empty());
        assert(components(root) =~= seq![root]);
    } else if c == dot {
        assert(!dot.contains('/'));
        pieces::lemma_pieces_whole(dot, '/');
        reveal_with_fuel(Seq::filter, 2);
        assert(seq![dot].drop_last() =~= Seq::<Seq<char>>::empty());
        assert(components(dot) =~= seq![dot]);
    } else {
        lemma_names_of_name(c);
        pieces::lemma_pieces_whole(c, '/');
        if is_absolute(c) {
            assert(c.contains(c[0]));
        }
        assert(components(c) =~= seq![c]);
    }
}

/// The parent of a path has the components of the path but the last; the root and
/// the empty path have no parent.
pub proof fn law_parent(path: Seq<char>)
    ensures
        parent_of(path) is None <==> components(path).len() == 0 || components(path).last()
            == seq!['/'],
        parent_of(path) matches Some(dir) ==> components(dir) == components(path).drop_last(),
{
    let list = components(path);
    lemma_names_apart(path);
    if parent_of(path) is Some {
        let front = list.drop_last();
        assert forall|i: int| 0 <= i < front.len() implies (is_name(#[trigger] front[i])
            && !front[i].contains('/')) || (i == 0 && (front[i] == seq!['/'] || front[i]
            == seq!['.'])) by {
            let n = lead(path).len() as int;
            if i >= n {
                assert(front[i] == names(path)[i - n]);
            }
        }
        lemma_rendered(front);
    }
}

} // verus!
