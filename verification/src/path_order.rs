//! Case-insensitive path collisions: the order that brings colliding paths
//! next to each other, and the first collision in that order.

use crate::bencode::{bytes_less, is_less};
use crate::bencode_laws::lemma_bytes_less_strict;
use crate::path::{lowercase, lowercase_of, texts, TorrentPath};
use vstd::prelude::*;
use vstd::utf8::encode_utf8;

verus! {

/// What paths are compared by: the bytes of each lowercased component.
pub open spec fn path_key(path: Seq<Seq<char>>) -> Seq<Seq<u8>> {
    Seq::new(path.len(), |i: int| encode_utf8(lowercase_of(path[i])))
}

/// Lexicographic order on keys, component by component.
pub open spec fn key_less(a: Seq<Seq<u8>>, b: Seq<Seq<u8>>) -> bool
    decreases a.len(),
{
    if b.len() == 0 {
        false
    } else if a.len() == 0 {
        true
    } else if a[0] != b[0] {
        bytes_less(a[0], b[0])
    } else {
        key_less(a.drop_first(), b.drop_first())
    }
}

/// Whether one key leads the other, as a directory leads what is in it.
pub open spec fn key_prefix(a: Seq<Seq<u8>>, b: Seq<Seq<u8>>) -> bool {
    a.len() <= b.len() && b.take(a.len() as int) == a
}

/// The order of positions: by key, and among equal keys by position.
pub open spec fn before(keys: Seq<Seq<Seq<u8>>>, i: int, j: int) -> bool {
    key_less(keys[i], keys[j]) || (keys[i] == keys[j] && i < j)
}

/// Whether the key at `j` collides with one that stands before it in the order.
pub open spec fn collides(keys: Seq<Seq<Seq<u8>>>, j: int) -> bool {
    exists|i: int|
        0 <= i < keys.len() && i != j && #[trigger] before(keys, i, j) && key_prefix(
            keys[i],
            keys[j],
        )
}

/// Whether `j` is the first position, in the order, that collides.
pub open spec fn first_collision(keys: Seq<Seq<Seq<u8>>>, j: int) -> bool {
    &&& 0 <= j < keys.len()
    &&& collides(keys, j)
    &&& forall|other: int|
        0 <= other < keys.len() && other != j && #[trigger] collides(keys, other) ==> before(
            keys,
            j,
            other,
        )
}

/// The position of the first collision, if there is one.
pub open spec fn collision(keys: Seq<Seq<Seq<u8>>>) -> Option<int> {
    if exists|j: int| first_collision(keys, j) {
        Some(choose|j: int| first_collision(keys, j))
    } else {
        None
    }
}

pub proof fn lemma_bytes_total(a: Seq<u8>, b: Seq<u8>)
    ensures
        bytes_less(a, b) || bytes_less(b, a) || a == b,
    decreases a.len(),
{
    if a.len() > 0 && b.len() > 0 {
        if a[0] == b[0] {
            lemma_bytes_total(a.drop_first(), b.drop_first());
            if a.drop_first() == b.drop_first() {
                assert(a =~= seq![a[0]] + a.drop_first());
                assert(b =~= seq![b[0]] + b.drop_first());
            }
        }
    } else if a.len() == 0 && b.len() == 0 {
        assert(a =~= b);
    }
}

proof fn lemma_key_total(a: Seq<Seq<u8>>, b: Seq<Seq<u8>>)
    ensures
        key_less(a, b) || key_less(b, a) || a == b,
        !(key_less(a, b) && key_less(b, a)),
    decreases a.len() + b.len(),
{
    if a.len() > 0 && b.len() > 0 {
        lemma_bytes_total(a[0], b[0]);
        lemma_bytes_less_strict(a[0], b[0], a[0]);
        lemma_key_total(a.drop_first(), b.drop_first());
        if a[0] == b[0] && a.drop_first() == b.drop_first() {
            assert(a =~= seq![a[0]] + a.drop_first());
            assert(b =~= seq![b[0]] + b.drop_first());
        }
    } else if a.len() == 0 && b.len() == 0 {
        assert(a =~= b);
    }
}

proof fn lemma_key_transitive(a: Seq<Seq<u8>>, b: Seq<Seq<u8>>, c: Seq<Seq<u8>>)
    requires
        key_less(a, b),
        key_less(b, c),
    ensures
        key_less(a, c),
    decreases a.len(),
{
    if a.len() > 0 {
        lemma_bytes_less_strict(a[0], b[0], c[0]);
        lemma_bytes_less_strict(a[0], b[0], a[0]);
        if a[0] == b[0] && b[0] == c[0] {
            lemma_key_transitive(a.drop_first(), b.drop_first(), c.drop_first());
        }
    }
}

/// Positions are totally ordered.
proof fn lemma_before_order(keys: Seq<Seq<Seq<u8>>>, i: int, j: int, k: int)
    ensures
        i != j ==> before(keys, i, j) || before(keys, j, i),
        !(before(keys, i, j) && before(keys, j, i)),
        before(keys, i, j) && before(keys, j, k) ==> before(keys, i, k),
{
    lemma_key_total(keys[i], keys[j]);
    if key_less(keys[i], keys[j]) && key_less(keys[j], keys[k]) {
        lemma_key_transitive(keys[i], keys[j], keys[k]);
    }
}

/// A key between a leading key and one it leads is led by it too.
proof fn lemma_prefix_between(a: Seq<Seq<u8>>, b: Seq<Seq<u8>>, c: Seq<Seq<u8>>)
    requires
        key_prefix(a, c),
        !key_less(b, a),
        !key_less(c, b),
    ensures
        key_prefix(a, b),
    decreases a.len(),
{
    if a.len() == 0 {
        assert(b.take(0) =~= a);
    } else {
        assert(c.take(a.len() as int)[0] == a[0]);
        lemma_bytes_total(b[0], a[0]);
        assert(b[0] == a[0]);
        let n = a.len() - 1;
        assert(c.drop_first().take(n) =~= a.drop_first()) by {
            assert(c.take(a.len() as int).drop_first() =~= c.drop_first().take(n));
        }
        lemma_prefix_between(a.drop_first(), b.drop_first(), c.drop_first());
        assert(b.take(a.len() as int) =~= a) by {
            assert(b.drop_first().take(n) == a.drop_first());
            assert forall|i: int| 0 <= i < a.len() implies b.take(a.len() as int)[i] == a[i] by {
                if i > 0 {
                    assert(b.drop_first().take(n)[i - 1] == b[i]);
                    assert(a.drop_first()[i - 1] == a[i]);
                }
            }
        }
    }
}

/// A key that leads another never orders after it.
proof fn lemma_prefix_not_after(a: Seq<Seq<u8>>, b: Seq<Seq<u8>>)
    requires
        key_prefix(a, b),
    ensures
        !key_less(b, a),
    decreases a.len(),
{
    if a.len() > 0 {
        assert(b.take(a.len() as int)[0] == a[0]);
        let n = a.len() - 1;
        assert(b.take(a.len() as int).drop_first() =~= b.drop_first().take(n));
        lemma_prefix_not_after(a.drop_first(), b.drop_first());
    }
}

/// There is at most one first collision.
proof fn lemma_first_collision_unique(keys: Seq<Seq<Seq<u8>>>, i: int, j: int)
    requires
        first_collision(keys, i),
        first_collision(keys, j),
    ensures
        i == j,
{
    if i != j {
        assert(before(keys, i, j) && before(keys, j, i));
        lemma_before_order(keys, i, j, i);
    }
}

/// Where no collision is found, no path equals or leads any other, whatever
/// the case of their letters.
pub proof fn law_no_collision(keys: Seq<Seq<Seq<u8>>>, i: int, j: int)
    requires
        forall|k: int| 0 <= k < keys.len() ==> !collides(keys, k),
        0 <= i < keys.len(),
        0 <= j < keys.len(),
        i != j,
    ensures
        !key_prefix(keys[i], keys[j]),
{
    if key_prefix(keys[i], keys[j]) {
        lemma_prefix_not_after(keys[i], keys[j]);
        lemma_before_order(keys, i, j, i);
        if before(keys, i, j) {
            assert(collides(keys, j));
        } else {
            assert(before(keys, j, i));
            assert(keys[i] == keys[j]);
            assert(keys[j].take(keys[j].len() as int) =~= keys[j]);
            assert(collides(keys, i));
        }
    }
}

/// Where any key collides, some key is the first to.
pub proof fn lemma_some_first_collision(keys: Seq<Seq<Seq<u8>>>, j: int) -> (first: int)
    requires
        0 <= j < keys.len(),
        collides(keys, j),
    ensures
        first_collision(keys, first),
{
    let first = lemma_first_up_to(keys, keys.len() as int, j);
    first
}

/// The first collision among the positions below `n`.
proof fn lemma_first_up_to(keys: Seq<Seq<Seq<u8>>>, n: int, j: int) -> (first: int)
    requires
        0 <= j < n <= keys.len(),
        collides(keys, j),
    ensures
        0 <= first < n,
        collides(keys, first),
        forall|other: int|
            0 <= other < n && other != first && #[trigger] collides(keys, other) ==> before(
                keys,
                first,
                other,
            ),
    decreases n,
{
    let last = n - 1;
    if exists|k: int| 0 <= k < last && collides(keys, k) {
        let k = choose|k: int| 0 <= k < last && collides(keys, k);
        let first = lemma_first_up_to(keys, last, k);
        lemma_before_order(keys, first, last, first);
        if collides(keys, last) && before(keys, last, first) {
            assert forall|other: int|
                0 <= other < n && other != last && #[trigger] collides(
                    keys,
                    other,
                ) implies before(keys, last, other) by {
                lemma_before_order(keys, last, first, other);
            }
            last
        } else {
            first
        }
    } else {
        last
    }
}

/// Lowercased components behind vectors of strings.
pub open spec fn key_views(keys: Seq<Vec<String>>) -> Seq<Seq<Seq<u8>>> {
    Seq::new(keys.len(), |i: int| string_bytes(keys[i]@))
}

pub open spec fn string_bytes(strings: Seq<String>) -> Seq<Seq<u8>> {
    Seq::new(strings.len(), |i: int| encode_utf8(strings[i]@))
}

/// The key of a path, computed.
pub(crate) fn key_of(path: &TorrentPath) -> (key: Vec<String>)
    ensures
        string_bytes(key@) == path_key(path@),
{
    let components = path.components();
    let mut key: Vec<String> = Vec::new();
    let mut i: usize = 0;
    while i < components.len()
        invariant
            texts(components@) == path@,
            i <= components@.len(),
            key@.len() == i,
            forall|k: int| 0 <= k < i ==> key@[k]@ == lowercase_of(path@[k]),
        decreases components@.len() - i,
    {
        assert(path@[i as int] == components@[i as int]@);
        key.push(lowercase(components[i].as_str()));
        i += 1;
    }
    assert(path@.len() == components@.len());
    assert(string_bytes(key@) =~= path_key(path@));
    key
}

/// Whether two strings hold the same text.
fn same_text(a: &String, b: &String) -> (result: bool)
    ensures
        result == (encode_utf8(a@) == encode_utf8(b@)),
{
    proof {
        vstd::utf8::encode_utf8_decode_utf8(a@);
        vstd::utf8::encode_utf8_decode_utf8(b@);
    }
    *a == *b
}

fn is_key_less(a: &Vec<String>, b: &Vec<String>) -> (result: bool)
    ensures
        result == key_less(string_bytes(a@), string_bytes(b@)),
{
    let ghost x = string_bytes(a@);
    let ghost y = string_bytes(b@);
    let mut i: usize = 0;
    proof {
        assert(x.skip(0) =~= x);
        assert(y.skip(0) =~= y);
    }
    while i < a.len() && i < b.len()
        invariant
            x == string_bytes(a@),
            y == string_bytes(b@),
            i <= a@.len(),
            i <= b@.len(),
            key_less(x, y) == key_less(x.skip(i as int), y.skip(i as int)),
        decreases a@.len() - i,
    {
        assert(x.skip(i as int)[0] == encode_utf8(a@[i as int]@));
        assert(y.skip(i as int)[0] == encode_utf8(b@[i as int]@));
        if !same_text(&a[i], &b[i]) {
            return is_less(a[i].as_str().as_bytes(), b[i].as_str().as_bytes());
        }
        proof {
            assert(x.skip(i as int).drop_first() =~= x.skip(i + 1));
            assert(y.skip(i as int).drop_first() =~= y.skip(i + 1));
        }
        i += 1;
    }
    i < b.len()
}

pub(crate) fn is_key_prefix(a: &Vec<String>, b: &Vec<String>) -> (result: bool)
    ensures
        result == key_prefix(string_bytes(a@), string_bytes(b@)),
{
    if a.len() > b.len() {
        return false;
    }
    let ghost x = string_bytes(a@);
    let ghost y = string_bytes(b@);
    let mut i: usize = 0;
    while i < a.len()
        invariant
            x == string_bytes(a@),
            y == string_bytes(b@),
            a@.len() <= b@.len(),
            i <= a@.len(),
            forall|k: int| 0 <= k < i ==> x[k] == y[k],
        decreases a@.len() - i,
    {
        if !same_text(&a[i], &b[i]) {
            assert(y.take(x.len() as int)[i as int] != x[i as int]);
            return false;
        }
        i += 1;
    }
    assert(y.take(x.len() as int) =~= x);
    true
}

/// Positions in strictly increasing order.
pub open spec fn ordered(keys: Seq<Seq<Seq<u8>>>, positions: Seq<usize>) -> bool {
    forall|a: int, b: int|
        0 <= a < b < positions.len() ==> before(
            keys,
            #[trigger] positions[a] as int,
            #[trigger] positions[b] as int,
        )
}

/// All positions from `low` up to `high`, and no others.
pub open spec fn covers(positions: Seq<usize>, low: int, high: int) -> bool {
    &&& forall|a: int| 0 <= a < positions.len() ==> low <= (#[trigger] positions[a]) < high
    &&& forall|x: usize| low <= x < high ==> #[trigger] positions.contains(x)
}

fn merge(
    keys: &Vec<Vec<String>>,
    left: &Vec<usize>,
    right: &Vec<usize>,
    Ghost(low): Ghost<int>,
    Ghost(middle): Ghost<int>,
    Ghost(high): Ghost<int>,
) -> (merged: Vec<usize>)
    requires
        0 <= low <= middle <= high <= keys@.len(),
        ordered(key_views(keys@), left@),
        ordered(key_views(keys@), right@),
        covers(left@, low, middle),
        covers(right@, middle, high),
    ensures
        ordered(key_views(keys@), merged@),
        covers(merged@, low, high),
{
    let ghost views = key_views(keys@);
    let mut merged: Vec<usize> = Vec::new();
    let mut i: usize = 0;
    let mut j: usize = 0;
    while i < left.len() || j < right.len()
        invariant
            views == key_views(keys@),
            0 <= low <= middle <= high <= keys@.len(),
            ordered(views, left@),
            ordered(views, right@),
            covers(left@, low, middle),
            covers(right@, middle, high),
            i <= left@.len(),
            j <= right@.len(),
            ordered(views, merged@),
            forall|a: int| 0 <= a < merged@.len() ==> low <= (#[trigger] merged@[a]) < high,
            forall|a: int, b: int|
                0 <= a < merged@.len() && i <= b < left@.len() ==> before(
                    views,
                    #[trigger] merged@[a] as int,
                    #[trigger] left@[b] as int,
                ),
            forall|a: int, b: int|
                0 <= a < merged@.len() && j <= b < right@.len() ==> before(
                    views,
                    #[trigger] merged@[a] as int,
                    #[trigger] right@[b] as int,
                ),
            forall|a: int| 0 <= a < i ==> merged@.contains(#[trigger] left@[a]),
            forall|a: int| 0 <= a < j ==> merged@.contains(#[trigger] right@[a]),
        decreases left@.len() - i + right@.len() - j,
    {
        let take_left: bool = if i >= left.len() {
            false
        } else if j >= right.len() {
            true
        } else {
            assert(low <= left@[i as int] < middle);
            assert(middle <= right@[j as int] < high);
            !is_key_less(&keys[right[j]], &keys[left[i]])
        };
        let ghost old_merged = merged@;
        if take_left {
            let next: usize = left[i];
            assert forall|b: int| j <= b < right@.len() implies before(
                views,
                next as int,
                #[trigger] right@[b] as int,
            ) by {
                let first = right@[j as int];
                lemma_before_order(views, next as int, first as int, right@[b] as int);
                assert(views[next as int] == string_bytes(keys@[next as int]@));
                assert(views[first as int] == string_bytes(keys@[first as int]@));
                lemma_key_total(views[next as int], views[first as int]);
            }
            merged.push(next);
            assert forall|a: int| 0 <= a < i + 1 implies merged@.contains(
                #[trigger] left@[a],
            ) by {
                if a < i {
                    let w = choose|w: int| 0 <= w < old_merged.len() && old_merged[w] == left@[a];
                    assert(merged@[w] == left@[a]);
                } else {
                    assert(merged@[merged@.len() - 1] == left@[a]);
                }
            }
            assert forall|a: int| 0 <= a < j implies merged@.contains(#[trigger] right@[a]) by {
                let w = choose|w: int| 0 <= w < old_merged.len() && old_merged[w] == right@[a];
                assert(merged@[w] == right@[a]);
            }
            i += 1;
        } else {
            let next: usize = right[j];
            assert forall|b: int| i <= b < left@.len() implies before(
                views,
                next as int,
                #[trigger] left@[b] as int,
            ) by {
                let first = left@[i as int];
                lemma_before_order(views, next as int, first as int, left@[b] as int);
                assert(views[next as int] == string_bytes(keys@[next as int]@));
                assert(views[first as int] == string_bytes(keys@[first as int]@));
            }
            merged.push(next);
            assert forall|a: int| 0 <= a < j + 1 implies merged@.contains(
                #[trigger] right@[a],
            ) by {
                if a < j {
                    let w = choose|w: int| 0 <= w < old_merged.len() && old_merged[w] == right@[a];
                    assert(merged@[w] == right@[a]);
                } else {
                    assert(merged@[merged@.len() - 1] == right@[a]);
                }
            }
            assert forall|a: int| 0 <= a < i implies merged@.contains(#[trigger] left@[a]) by {
                let w = choose|w: int| 0 <= w < old_merged.len() && old_merged[w] == left@[a];
                assert(merged@[w] == left@[a]);
            }
            j += 1;
        }
    }
    assert forall|x: usize| low <= x < high implies #[trigger] merged@.contains(x) by {
        if x < middle {
            assert(left@.contains(x));
            let a = choose|a: int| 0 <= a < left@.len() && left@[a] == x;
            assert(merged@.contains(left@[a]));
        } else {
            assert(right@.contains(x));
            let a = choose|a: int| 0 <= a < right@.len() && right@[a] == x;
            assert(merged@.contains(right@[a]));
        }
    }
    merged
}

/// The positions from `low` up to `high`, sorted by key.
fn sort_range(keys: &Vec<Vec<String>>, low: usize, high: usize) -> (sorted: Vec<usize>)
    requires
        low <= high <= keys@.len(),
    ensures
        ordered(key_views(keys@), sorted@),
        covers(sorted@, low as int, high as int),
    decreases high - low,
{
    if high - low == 0 {
        return Vec::new();
    }
    if high - low == 1 {
        let mut single: Vec<usize> = Vec::new();
        single.push(low);
        assert(single@[0] == low);
        return single;
    }
    let middle: usize = low + (high - low) / 2;
    let left = sort_range(keys, low, middle);
    let right = sort_range(keys, middle, high);
    merge(keys, &left, &right, Ghost(low as int), Ghost(middle as int), Ghost(high as int))
}

/// The keys of a list of paths.
pub open spec fn path_keys(paths: Seq<Seq<Seq<char>>>) -> Seq<Seq<Seq<u8>>> {
    Seq::new(paths.len(), |i: int| path_key(paths[i]))
}

/// Paths behind references.
pub open spec fn path_views(paths: Seq<&TorrentPath>) -> Seq<Seq<Seq<char>>> {
    Seq::new(paths.len(), |i: int| paths[i]@)
}

/// The position of the first path that equals or is led by another, when
/// letter case is ignored.
pub fn find_collision(paths: &Vec<&TorrentPath>) -> (result: Option<usize>)
    ensures
        match result {
            Some(at) => collision(path_keys(path_views(paths@))) == Some(at as int) && at
                < paths@.len(),
            None => {
                &&& collision(path_keys(path_views(paths@))) is None
                &&& forall|k: int|
                    0 <= k < paths@.len() ==> !#[trigger] collides(
                        path_keys(path_views(paths@)),
                        k,
                    )
            },
        },
{
    let ghost all = path_keys(path_views(paths@));
    let mut keys: Vec<Vec<String>> = Vec::new();
    let mut i: usize = 0;
    while i < paths.len()
        invariant
            i <= paths@.len(),
            keys@.len() == i,
            forall|k: int| 0 <= k < i ==> string_bytes((#[trigger] keys@[k])@) == path_key(
                paths@[k]@,
            ),
        decreases paths@.len() - i,
    {
        keys.push(key_of(paths[i]));
        i += 1;
    }
    assert(key_views(keys@) =~= all);
    assert(all.len() == paths.len());
    let sorted = sort_range(&keys, 0, paths.len());
    let mut at: usize = 1;
    while at < sorted.len()
        invariant
            1 <= at,
            key_views(keys@) == all,
            keys@.len() == paths@.len(),
            all.len() == paths@.len() <= usize::MAX,
            all == path_keys(path_views(paths@)),
            ordered(all, sorted@),
            covers(sorted@, 0, paths@.len() as int),
            forall|k: int|
                0 < k < at && k < sorted@.len() ==> !key_prefix(
                    all[sorted@[k - 1] as int],
                    all[#[trigger] sorted@[k] as int],
                ),
        decreases sorted@.len() - at,
    {
        assert(0 <= sorted@[at - 1] < paths@.len());
        assert(0 <= sorted@[at as int] < paths@.len());
        let first: usize = sorted[at - 1];
        let second: usize = sorted[at];
        assert(all[first as int] == string_bytes(keys@[first as int]@));
        assert(all[second as int] == string_bytes(keys@[second as int]@));
        if is_key_prefix(&keys[first], &keys[second]) {
            proof {
                assert(before(all, first as int, second as int));
                lemma_before_order(all, first as int, second as int, first as int);
                lemma_key_total(all[first as int], all[second as int]);
                assert(collides(all, second as int));
                assert forall|other: int|
                    0 <= other < all.len() && other != second && #[trigger] collides(
                        all,
                        other,
                    ) implies before(all, second as int, other) by {
                    let b = lemma_collision_is_adjacent(all, sorted@, other);
                    assert(b >= at);
                    let place = choose|p: int| b <= p < sorted@.len() && sorted@[p] == other;
                }
                assert(first_collision(all, second as int));
                let chosen = choose|j: int| first_collision(all, j);
                lemma_first_collision_unique(all, chosen, second as int);
            }
            return Some(second);
        }
        at += 1;
    }
    proof {
        assert forall|k: int| 0 <= k < all.len() implies !#[trigger] collides(all, k) by {
            if collides(all, k) {
                let b = lemma_collision_is_adjacent(all, sorted@, k);
            }
        }
    }
    None
}

/// A colliding position has, at or before its place in the order, two
/// neighbours of which the first leads the second.
proof fn lemma_collision_is_adjacent(
    keys: Seq<Seq<Seq<u8>>>,
    sorted: Seq<usize>,
    j: int,
) -> (at: int)
    requires
        ordered(keys, sorted),
        covers(sorted, 0, keys.len() as int),
        keys.len() <= usize::MAX,
        0 <= j < keys.len(),
        collides(keys, j),
    ensures
        0 < at < sorted.len(),
        key_prefix(keys[sorted[at - 1] as int], keys[sorted[at] as int]),
        exists|p: int| at <= p < sorted.len() && sorted[p] == j,
{
    let i = choose|i: int|
        0 <= i < keys.len() && i != j && #[trigger] before(keys, i, j) && key_prefix(
            keys[i],
            keys[j],
        );
    assert(sorted.contains(i as usize));
    assert(sorted.contains(j as usize));
    let p = choose|p: int| 0 <= p < sorted.len() && sorted[p] == i as usize;
    let q = choose|q: int| 0 <= q < sorted.len() && sorted[q] == j as usize;
    if q < p {
        assert(before(keys, sorted[q] as int, sorted[p] as int));
        lemma_before_order(keys, i, j, i);
    }
    assert(p < q);
    let next = sorted[p + 1] as int;
    assert(before(keys, sorted[p] as int, sorted[p + 1] as int));
    lemma_key_total(keys[i], keys[next]);
    if p + 1 < q {
        assert(before(keys, sorted[p + 1] as int, sorted[q] as int));
        lemma_key_total(keys[next], keys[j]);
    } else {
        lemma_key_total(keys[j], keys[j]);
    }
    lemma_prefix_between(keys[i], keys[next], keys[j]);
    p + 1
}

} // verus!
