//! Ordering: a merge sort, the stable order of keyed items, ranks.

use vstd::prelude::*;
use vstd::seq_lib::*;

verus! {

/// Whether `s` never descends.
pub open spec fn is_ascending(s: Seq<u128>) -> bool {
    forall|i: int, j: int| 0 <= i <= j < s.len() ==> s[i] <= s[j]
}

proof fn lemma_multiset_parts(s: Seq<u128>, n: int)
    requires
        0 <= n <= s.len(),
    ensures
        s.to_multiset() == s.take(n).to_multiset().add(s.skip(n).to_multiset()),
{
    assert(s =~= s.take(n) + s.skip(n));
    lemma_multiset_commutative(s.take(n), s.skip(n));
}

/// Merges two ascending lists into one.
fn merge(a: &Vec<u128>, b: &Vec<u128>) -> (out: Vec<u128>)
    requires
        is_ascending(a@),
        is_ascending(b@),
    ensures
        is_ascending(out@),
        out@.to_multiset() == a@.to_multiset().add(b@.to_multiset()),
{
    let mut out: Vec<u128> = Vec::new();
    let mut i: usize = 0;
    let mut j: usize = 0;
    proof {
        assert(a@.take(0) =~= Seq::<u128>::empty());
        assert(b@.take(0) =~= Seq::<u128>::empty());
        Seq::<u128>::empty().to_multiset_ensures();
        assert(out@.to_multiset() =~= a@.take(0).to_multiset().add(b@.take(0).to_multiset()));
    }
    while i < a.len() || j < b.len()
        invariant
            i <= a@.len(),
            j <= b@.len(),
            is_ascending(a@),
            is_ascending(b@),
            is_ascending(out@),
            out@.to_multiset() == a@.take(i as int).to_multiset().add(
                b@.take(j as int).to_multiset(),
            ),
            forall|k: int, l: int| 0 <= k < out@.len() && i <= l < a@.len() ==> out@[k] <= a@[l],
            forall|k: int, l: int| 0 <= k < out@.len() && j <= l < b@.len() ==> out@[k] <= b@[l],
        decreases a@.len() - i + b@.len() - j,
    {
        broadcast use group_to_multiset_ensures;

        let ghost before = out@;
        if j == b.len() || (i < a.len() && a[i] <= b[j]) {
            out.push(a[i]);
            proof {
                assert(a@.take(i + 1) =~= a@.take(i as int).push(a@[i as int]));
                assert(out@.to_multiset() =~= a@.take(i + 1).to_multiset().add(
                    b@.take(j as int).to_multiset(),
                ));
            }
            i += 1;
        } else {
            out.push(b[j]);
            proof {
                assert(b@.take(j + 1) =~= b@.take(j as int).push(b@[j as int]));
                assert(out@.to_multiset() =~= a@.take(i as int).to_multiset().add(
                    b@.take(j + 1).to_multiset(),
                ));
            }
            j += 1;
        }
    }
    proof {
        assert(a@.take(i as int) =~= a@);
        assert(b@.take(j as int) =~= b@);
    }
    out
}

/// The items `from..to` of `items`, in ascending order.
fn sorted_range(items: &Vec<u128>, from: usize, to: usize) -> (out: Vec<u128>)
    requires
        from <= to <= items@.len(),
    ensures
        is_ascending(out@),
        out@.to_multiset() == items@.subrange(from as int, to as int).to_multiset(),
    decreases to - from,
{
    let ghost part = items@.subrange(from as int, to as int);
    if to - from <= 1 {
        let mut out: Vec<u128> = Vec::new();
        if from < to {
            out.push(items[from]);
        }
        assert(out@ =~= part);
        return out;
    }
    let mid: usize = from + (to - from) / 2;
    let left = sorted_range(items, from, mid);
    let right = sorted_range(items, mid, to);
    proof {
        lemma_multiset_parts(part, mid - from);
        assert(part.take(mid - from) =~= items@.subrange(from as int, mid as int));
        assert(part.skip(mid - from) =~= items@.subrange(mid as int, to as int));
    }
    merge(&left, &right)
}

/// The same items in ascending order.
pub fn sorted(items: &Vec<u128>) -> (out: Vec<u128>)
    ensures
        is_ascending(out@),
        forall|i: int, j: int| 0 <= i < j < out@.len() ==> out@[i] <= out@[j],
        out@.to_multiset() == items@.to_multiset(),
        out@.len() == items@.len(),
{
    let out = sorted_range(items, 0, items.len());
    proof {
        assert(items@.subrange(0, items@.len() as int) =~= items@);
        out@.to_multiset_ensures();
        items@.to_multiset_ensures();
    }
    out
}

// ---------------------------------------------------------------------------
// Ranks
// ---------------------------------------------------------------------------

/// How many items of `s` have the property `p`.
pub open spec fn count<T>(s: Seq<T>, p: spec_fn(T) -> bool) -> nat
    decreases s.len(),
{
    if s.len() == 0 {
        0
    } else {
        count(s.drop_last(), p) + if p(s.last()) {
            1nat
        } else {
            0nat
        }
    }
}

/// Whether `x` stands at position `k`, counted from zero, when the items of `s`
/// are put in ascending order: at most `k` items are smaller, and more than `k`
/// are not larger.
pub open spec fn is_kth_smallest(s: Seq<u32>, k: int, x: u32) -> bool {
    &&& s.contains(x)
    &&& count(s, |y: u32| y < x) <= k
    &&& k < count(s, |y: u32| y <= x)
}

proof fn lemma_count_remove<T>(s: Seq<T>, p: spec_fn(T) -> bool, i: int)
    requires
        0 <= i < s.len(),
    ensures
        count(s, p) == count(s.remove(i), p) + if p(s[i]) {
            1nat
        } else {
            0nat
        },
    decreases s.len(),
{
    if i == s.len() - 1 {
        assert(s.remove(i) =~= s.drop_last());
    } else {
        lemma_count_remove(s.drop_last(), p, i);
        assert(s.remove(i).drop_last() =~= s.drop_last().remove(i));
    }
}

proof fn lemma_count_same<T>(s: Seq<T>, t: Seq<T>, p: spec_fn(T) -> bool)
    requires
        s.to_multiset() == t.to_multiset(),
    ensures
        count(s, p) == count(t, p),
    decreases s.len(),
{
    broadcast use group_to_multiset_ensures;

    assert(s.len() == s.to_multiset().len() == t.len());
    if s.len() > 0 {
        let a = s.last();
        assert(s.contains(a));
        assert(t.to_multiset().count(a) > 0);
        assert(t.contains(a));
        let j = choose|j: int| 0 <= j < t.len() && t[j] == a;
        assert(s.remove(s.len() - 1) =~= s.drop_last());
        assert(s.drop_last().to_multiset() =~= t.remove(j).to_multiset());
        lemma_count_same(s.drop_last(), t.remove(j), p);
        lemma_count_remove(t, p, j);
    }
}

/// The first `n` items have the property and the others do not.
proof fn lemma_count_prefix<T>(s: Seq<T>, p: spec_fn(T) -> bool, n: int)
    requires
        0 <= n <= s.len(),
        forall|i: int| n <= i < s.len() ==> !p(#[trigger] s[i]),
    ensures
        count(s, p) <= n,
        (forall|i: int| 0 <= i < n ==> p(#[trigger] s[i])) ==> count(s, p) == n,
    decreases s.len(),
{
    if s.len() > 0 {
        let rest = s.drop_last();
        if n == s.len() {
            lemma_count_prefix(rest, p, n - 1);
            assert(s.last() == s[n - 1]);
        } else {
            assert(!p(s[s.len() - 1]));
            lemma_count_prefix(rest, p, n);
        }
    }
}

proof fn lemma_count_at_least<T>(s: Seq<T>, p: spec_fn(T) -> bool, n: int)
    requires
        0 <= n <= s.len(),
        forall|i: int| 0 <= i < n ==> p(#[trigger] s[i]),
    ensures
        count(s, p) >= n,
    decreases s.len(),
{
    if s.len() > 0 {
        let rest = s.drop_last();
        if n == s.len() {
            lemma_count_at_least(rest, p, n - 1);
            assert(s.last() == s[n - 1]);
        } else {
            lemma_count_at_least(rest, p, n);
        }
    }
}

proof fn lemma_count_map<T, U>(s: Seq<T>, f: spec_fn(T) -> U, p: spec_fn(U) -> bool, q: spec_fn(
    T,
) -> bool)
    requires
        forall|a: T| q(a) == p(#[trigger] f(a)),
    ensures
        count(s.map_values(f), p) == count(s, q),
    decreases s.len(),
{
    if s.len() > 0 {
        assert(s.map_values(f).drop_last() =~= s.drop_last().map_values(f));
        lemma_count_map(s.drop_last(), f, p, q);
        assert(s.map_values(f).last() == f(s.last()));
    }
}

/// The item at position `k`, counted from zero, of the ascending order.
pub fn kth_smallest(items: &Vec<u32>, k: usize) -> (x: u32)
    requires
        k < items@.len(),
    ensures
        is_kth_smallest(items@, k as int, x),
{
    let ghost widen = |y: u32| y as u128;
    let mut wide: Vec<u128> = Vec::new();
    let mut i: usize = 0;
    while i < items.len()
        invariant
            i <= items@.len(),
            widen == (|y: u32| y as u128),
            wide@ == items@.take(i as int).map_values(widen),
        decreases items@.len() - i,
    {
        wide.push(items[i] as u128);
        i += 1;
        assert(wide@ =~= items@.take(i as int).map_values(widen));
    }
    assert(items@.take(i as int) =~= items@);
    let order = sorted(&wide);
    let found: u128 = order[k];
    let ghost x = found as u32;
    proof {
        broadcast use group_to_multiset_ensures;

        assert(order@.contains(found));
        assert(wide@.to_multiset().count(found) > 0);
        let at = choose|at: int| 0 <= at < wide@.len() && wide@[at] == found;
        assert(wide@[at] == items@[at] as u128);
        assert(items@[at] == x);
        let below = |y: u128| y < found;
        let up_to = |y: u128| y <= found;
        lemma_count_same(order@, wide@, below);
        lemma_count_same(order@, wide@, up_to);
        lemma_count_prefix(order@, below, k as int);
        lemma_count_at_least(order@, up_to, k + 1);
        lemma_count_map(items@, widen, below, |y: u32| y < x);
        lemma_count_map(items@, widen, up_to, |y: u32| y <= x);
    }
    found as u32
}

/// At most one value stands at a given position.
pub proof fn law_rank_is_unique(s: Seq<u32>, k: int, x: u32, y: u32)
    requires
        is_kth_smallest(s, k, x),
        is_kth_smallest(s, k, y),
    ensures
        x == y,
{
    if x < y {
        lemma_count_weaker(s, |z: u32| z <= x, |z: u32| z < y);
    } else if y < x {
        lemma_count_weaker(s, |z: u32| z <= y, |z: u32| z < x);
    }
}

/// The order of the items does not matter for the value at a position.
pub proof fn law_rank_ignores_order(s: Seq<u32>, t: Seq<u32>, k: int, x: u32, y: u32)
    requires
        s.to_multiset() == t.to_multiset(),
        is_kth_smallest(s, k, x),
        is_kth_smallest(t, k, y),
    ensures
        x == y,
{
    broadcast use group_to_multiset_ensures;

    lemma_count_same(s, t, |z: u32| z < y);
    lemma_count_same(s, t, |z: u32| z <= y);
    assert(t.to_multiset().count(y) > 0);
    assert(s.contains(y));
    law_rank_is_unique(s, k, x, y);
}

proof fn lemma_count_weaker(s: Seq<u32>, p: spec_fn(u32) -> bool, q: spec_fn(u32) -> bool)
    requires
        forall|z: u32| #[trigger] p(z) ==> q(z),
    ensures
        count(s, p) <= count(s, q),
    decreases s.len(),
{
    if s.len() > 0 {
        lemma_count_weaker(s.drop_last(), p, q);
    }
}

// ---------------------------------------------------------------------------
// The stable order of keyed items
// ---------------------------------------------------------------------------

/// Whether `order` lists the positions of `keys`, each once, by ascending key
/// and, where keys are equal, by ascending position.
pub open spec fn is_stable_order(keys: Seq<u64>, order: Seq<usize>) -> bool {
    &&& order.len() == keys.len()
    &&& forall|i: int| 0 <= i < order.len() ==> (#[trigger] order[i]) < keys.len()
    &&& forall|i: int, j: int|
        0 <= i < j < order.len() ==> comes_before(keys, #[trigger] order[i], #[trigger] order[j])
}

/// Whether position `a` comes strictly before position `b`.
pub open spec fn comes_before(keys: Seq<u64>, a: usize, b: usize) -> bool {
    keys[a as int] < keys[b as int] || (keys[a as int] == keys[b as int] && a < b)
}

/// The positions of `keys` by ascending key; equal keys keep their order.
pub fn stable_order(keys: &Vec<u64>) -> (order: Vec<usize>)
    ensures
        is_stable_order(keys@, order@),
{
    let ghost packed = |i: int| (keys@[i] as int) * 0x1_0000_0000_0000_0000 + i;
    let mut items: Vec<u128> = Vec::new();
    let mut i: usize = 0;
    while i < keys.len()
        invariant
            i <= keys@.len(),
            packed == (|i: int| (keys@[i] as int) * 0x1_0000_0000_0000_0000 + i),
            items@.len() == i,
            forall|j: int| 0 <= j < i ==> #[trigger] items@[j] as int == packed(j),
        decreases keys@.len() - i,
    {
        let key: u128 = keys[i] as u128;
        items.push(key * 0x1_0000_0000_0000_0000 + i as u128);
        i += 1;
    }
    let sorted_items = sorted(&items);
    proof {
        broadcast use group_to_multiset_ensures;

        assert forall|k: int| 0 <= k < sorted_items@.len() implies items@.contains(
            #[trigger] sorted_items@[k],
        ) by {
            assert(sorted_items@.contains(sorted_items@[k]));
            assert(items@.to_multiset().count(sorted_items@[k]) > 0);
        }
        assert(items@.no_duplicates());
        items@.lemma_multiset_has_no_duplicates();
        assert forall|x: u128| sorted_items@.to_multiset().contains(x) implies
            sorted_items@.to_multiset().count(x) == 1 by {}
        sorted_items@.lemma_multiset_has_no_duplicates_conv();
    }
    let mut order: Vec<usize> = Vec::new();
    let mut k: usize = 0;
    while k < sorted_items.len()
        invariant
            k <= sorted_items@.len(),
            sorted_items@.len() == items@.len() == keys@.len(),
            packed == (|i: int| (keys@[i] as int) * 0x1_0000_0000_0000_0000 + i),
            forall|j: int| 0 <= j < items@.len() ==> #[trigger] items@[j] as int == packed(j),
            forall|k: int|
                0 <= k < sorted_items@.len() ==> items@.contains(#[trigger] sorted_items@[k]),
            order@.len() == k,
            forall|j: int|
                0 <= j < k ==> (#[trigger] order@[j]) < keys@.len() && sorted_items@[j] as int
                    == packed(order@[j] as int),
        decreases sorted_items@.len() - k,
    {
        let item: u128 = sorted_items[k];
        let ghost j = choose|j: int| 0 <= j < items@.len() && items@[j] == sorted_items@[k as int];
        assert(item % 0x1_0000_0000_0000_0000 == j) by {
            assert(item as int == packed(j));
        }
        order.push((item % 0x1_0000_0000_0000_0000) as usize);
        k += 1;
    }
    proof {
        assert forall|a: int, b: int| 0 <= a < b < order@.len() implies comes_before(
            keys@,
            #[trigger] order@[a],
            #[trigger] order@[b],
        ) by {
            assert(sorted_items@[a] <= sorted_items@[b]);
            assert(sorted_items@[a] != sorted_items@[b]);
            assert(packed(order@[a] as int) < packed(order@[b] as int));
        }
    }
    order
}

proof fn lemma_stable_order_covers(keys: Seq<u64>, order: Seq<usize>)
    requires
        is_stable_order(keys, order),
    ensures
        order.no_duplicates(),
        forall|x: usize| x < keys.len() ==> order.contains(x),
{
    let n = keys.len() as int;
    let positions = order.map_values(|x: usize| x as int);
    assert forall|i: int, j: int|
        0 <= i < order.len() && 0 <= j < order.len() && i != j implies order[i] != order[j] by {
        if i < j {
            assert(comes_before(keys, order[i], order[j]));
        } else {
            assert(comes_before(keys, order[j], order[i]));
        }
    }
    assert(positions.no_duplicates());
    positions.unique_seq_to_set();
    vstd::set_lib::lemma_int_range(0, n);
    let all = vstd::set_lib::set_int_range(0, n);
    assert forall|x: int| positions.to_set().contains(x) implies all.contains(x) by {
        let i = choose|i: int| 0 <= i < positions.len() && positions[i] == x;
        assert(order[i] < keys.len());
    }
    vstd::set_lib::lemma_subset_equality(positions.to_set(), all);
    assert forall|x: usize| x < keys.len() implies order.contains(x) by {
        assert(all.contains(x as int));
        assert(positions.to_set().contains(x as int));
        let i = choose|i: int| 0 <= i < positions.len() && positions[i] == x as int;
        assert(order[i] == x);
    }
}

/// There is one stable order only.
pub proof fn law_stable_order_is_unique(keys: Seq<u64>, a: Seq<usize>, b: Seq<usize>)
    requires
        is_stable_order(keys, a),
        is_stable_order(keys, b),
    ensures
        a == b,
{
    broadcast use group_to_multiset_ensures;

    lemma_stable_order_covers(keys, a);
    lemma_stable_order_covers(keys, b);
    a.lemma_multiset_has_no_duplicates();
    b.lemma_multiset_has_no_duplicates();
    assert forall|x: usize| a.to_multiset().count(x) == b.to_multiset().count(x) by {
        assert(a.contains(x) <==> b.contains(x)) by {
            if a.contains(x) {
                let i = choose|i: int| 0 <= i < a.len() && a[i] == x;
                assert(a[i] < keys.len());
            }
            if b.contains(x) {
                let i = choose|i: int| 0 <= i < b.len() && b[i] == x;
                assert(b[i] < keys.len());
            }
        }
    }
    assert(a.to_multiset() =~= b.to_multiset());
    let leq = |x: usize, y: usize| x == y || comes_before(keys, x, y);
    lemma_sorted_unique(a, b, leq);
}

pub(crate) proof fn lemma_map_same<T, U>(s: Seq<T>, t: Seq<T>, f: spec_fn(T) -> U)
    requires
        s.to_multiset() == t.to_multiset(),
    ensures
        s.map_values(f).to_multiset() == t.map_values(f).to_multiset(),
    decreases s.len(),
{
    broadcast use group_to_multiset_ensures;

    assert(s.len() == s.to_multiset().len() == t.len());
    if s.len() == 0 {
        assert(s.map_values(f) =~= t.map_values(f));
    } else {
        let a = s.last();
        assert(s.contains(a));
        assert(t.to_multiset().count(a) > 0);
        assert(t.contains(a));
        let j = choose|j: int| 0 <= j < t.len() && t[j] == a;
        assert(s.remove(s.len() - 1) =~= s.drop_last());
        assert(s.drop_last().to_multiset() =~= t.remove(j).to_multiset());
        lemma_map_same(s.drop_last(), t.remove(j), f);
        let fs = s.map_values(f);
        let ft = t.map_values(f);
        assert(fs.remove(fs.len() - 1) =~= s.drop_last().map_values(f));
        assert(ft.remove(j) =~= t.remove(j).map_values(f));
        assert(fs[fs.len() - 1] == f(a) && ft[j] == f(a));
        assert(fs.to_multiset() =~= fs.remove(fs.len() - 1).to_multiset().insert(f(a)));
        assert(ft.to_multiset() =~= ft.remove(j).to_multiset().insert(f(a)));
    }
}

/// The keys in the order of a stable order.
pub open spec fn keys_in_order(keys: Seq<u64>, order: Seq<usize>) -> Seq<u64> {
    order.map_values(|x: usize| keys[x as int])
}

proof fn lemma_keys_in_order(keys: Seq<u64>, order: Seq<usize>)
    requires
        keys.len() <= usize::MAX,
        is_stable_order(keys, order),
    ensures
        keys_in_order(keys, order).to_multiset() == keys.to_multiset(),
{
    broadcast use group_to_multiset_ensures;

    let f = |x: usize| keys[x as int];
    let all = Seq::new(keys.len(), |i: int| i as usize);
    lemma_stable_order_covers(keys, order);
    assert(all.no_duplicates());
    order.lemma_multiset_has_no_duplicates();
    all.lemma_multiset_has_no_duplicates();
    assert forall|x: usize| order.to_multiset().count(x) == all.to_multiset().count(x) by {
        assert(order.contains(x) <==> all.contains(x)) by {
            if order.contains(x) {
                let i = choose|i: int| 0 <= i < order.len() && order[i] == x;
                assert(order[i] < keys.len());
                assert(all[x as int] == x);
            }
        }
    }
    assert(order.to_multiset() =~= all.to_multiset());
    lemma_map_same(order, all, f);
    assert(all.map_values(f) =~= keys);
}

/// The order in which the items stood does not matter for the keys in their
/// stable order.
pub proof fn law_stable_order_ignores_input_order(
    a: Seq<u64>,
    b: Seq<u64>,
    order_a: Seq<usize>,
    order_b: Seq<usize>,
)
    requires
        a.len() <= usize::MAX,
        a.to_multiset() == b.to_multiset(),
        is_stable_order(a, order_a),
        is_stable_order(b, order_b),
    ensures
        keys_in_order(a, order_a) == keys_in_order(b, order_b),
{
    broadcast use group_to_multiset_ensures;

    assert(a.len() == a.to_multiset().len() == b.len());
    lemma_keys_in_order(a, order_a);
    lemma_keys_in_order(b, order_b);
    let x = keys_in_order(a, order_a);
    let y = keys_in_order(b, order_b);
    let leq = |u: u64, v: u64| u <= v;
    assert forall|i: int, j: int| 0 <= i < j < x.len() implies leq(x[i], x[j]) by {
        assert(comes_before(a, order_a[i], order_a[j]));
    }
    assert forall|i: int, j: int| 0 <= i < j < y.len() implies leq(y[i], y[j]) by {
        assert(comes_before(b, order_b[i], order_b[j]));
    }
    lemma_sorted_unique(x, y, leq);
}

/// The item at a position is the one that stands there once the items are put in
/// ascending order.
pub proof fn law_rank_is_the_place_in_order(s: Seq<u32>, k: int, x: u32)
    requires
        0 <= k < s.len(),
        is_kth_smallest(s, k, x),
    ensures
        exists|t: Seq<u32>|
            {
                &&& t.to_multiset() == s.to_multiset()
                &&& forall|i: int, j: int| 0 <= i < j < t.len() ==> t[i] <= t[j]
                &&& #[trigger] t[k] == x
            },
{
    broadcast use group_to_multiset_ensures;

    let leq = |a: u32, b: u32| a <= b;
    let t = s.sort_by(leq);
    s.lemma_sort_by_ensures(leq);
    assert(t.len() == t.to_multiset().len() == s.len());
    assert forall|i: int, j: int| 0 <= i < j < t.len() implies t[i] <= t[j] by {
        assert(leq(t[i], t[j]));
    }
    let y = t[k];
    lemma_count_prefix(t, |z: u32| z < y, k);
    lemma_count_at_least(t, |z: u32| z <= y, k + 1);
    assert(t.contains(y));
    assert(is_kth_smallest(t, k, y));
    law_rank_ignores_order(s, t, k, x, y);
}

/// A stable order lists every position once, by ascending key, and equal keys in
/// the order in which they stand.
pub proof fn law_stable_order(keys: Seq<u64>, order: Seq<usize>)
    requires
        is_stable_order(keys, order),
    ensures
        order.len() == keys.len(),
        order.no_duplicates(),
        forall|x: usize| x < keys.len() <==> order.contains(x),
        forall|i: int, j: int|
            0 <= i < j < order.len() ==> keys[#[trigger] order[i] as int] < keys[
            #[trigger] order[j] as int] || (keys[order[i] as int] == keys[order[j] as int]
                && order[i] < order[j]),
{
    lemma_stable_order_covers(keys, order);
    assert forall|i: int, j: int| 0 <= i < j < order.len() implies keys[
    #[trigger] order[i] as int] < keys[#[trigger] order[j] as int] || (keys[order[i] as int]
        == keys[order[j] as int] && order[i] < order[j]) by {
        assert(comes_before(keys, order[i], order[j]));
    }
    assert forall|x: usize| order.contains(x) implies x < keys.len() by {
        let i = choose|i: int| 0 <= i < order.len() && order[i] == x;
        assert(order[i] < keys.len());
    }
}

} // verus!
