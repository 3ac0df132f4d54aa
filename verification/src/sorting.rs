//! Orders on byte sequences, and sorting that keeps equal items in order.

use vstd::prelude::*;
use vstd::utf8::encode_utf8;

verus! {

broadcast use vstd::string::group_string_axioms;

/// Whether `a` comes before `b` in the order of their first differing byte, a sequence
/// before those it begins.
pub open spec fn bytes_lt(a: Seq<u8>, b: Seq<u8>) -> bool
    decreases a.len(),
{
    if b.len() == 0 {
        false
    } else if a.len() == 0 {
        true
    } else {
        a[0] < b[0] || (a[0] == b[0] && bytes_lt(a.drop_first(), b.drop_first()))
    }
}

/// What items are sorted by: bytes, more bytes between equal ones, and a number between those
/// that are still equal.
pub type SortKey = (Seq<u8>, Seq<u8>, int);

/// Whether one key comes before another.
pub open spec fn key_lt(a: SortKey, b: SortKey) -> bool {
    bytes_lt(a.0, b.0) || (a.0 == b.0 && (bytes_lt(a.1, b.1) || (a.1 == b.1 && a.2 < b.2)))
}

/// Nothing comes before itself.
pub proof fn lemma_bytes_irreflexive(a: Seq<u8>)
    ensures
        !bytes_lt(a, a),
    decreases a.len(),
{
    if a.len() > 0 {
        lemma_bytes_irreflexive(a.drop_first());
    }
}

/// Of two different sequences one comes before the other.
pub proof fn lemma_bytes_total(a: Seq<u8>, b: Seq<u8>)
    ensures
        bytes_lt(a, b) || bytes_lt(b, a) || a == b,
    decreases a.len(),
{
    if a.len() > 0 && b.len() > 0 && a[0] == b[0] {
        lemma_bytes_total(a.drop_first(), b.drop_first());
        if a.drop_first() == b.drop_first() {
            assert(a =~= seq![a[0]] + a.drop_first());
            assert(b =~= seq![b[0]] + b.drop_first());
        }
    } else if a.len() == 0 && b.len() == 0 {
        assert(a =~= b);
    }
}

/// What comes before something comes before what follows that.
pub proof fn lemma_bytes_transitive(a: Seq<u8>, b: Seq<u8>, c: Seq<u8>)
    requires
        bytes_lt(a, b),
        bytes_lt(b, c),
    ensures
        bytes_lt(a, c),
    decreases a.len(),
{
    if a.len() > 0 && a[0] == b[0] && b[0] == c[0] {
        lemma_bytes_transitive(a.drop_first(), b.drop_first(), c.drop_first());
    }
}

/// Of two keys that differ exactly one comes before the other, and the order is transitive.
pub proof fn lemma_key_order(a: SortKey, b: SortKey, c: SortKey)
    ensures
        !key_lt(a, a),
        key_lt(a, b) || key_lt(b, a) || a == b,
        !(key_lt(a, b) && key_lt(b, a)),
        key_lt(a, b) && key_lt(b, c) ==> key_lt(a, c),
        !key_lt(b, a) && !key_lt(c, b) ==> !key_lt(c, a),
{
    lemma_bytes_order(a.0, b.0, c.0);
    lemma_bytes_order(b.0, c.0, a.0);
    lemma_bytes_order(c.0, a.0, b.0);
    lemma_bytes_order(a.1, b.1, c.1);
    lemma_bytes_order(b.1, c.1, a.1);
    lemma_bytes_order(c.1, a.1, b.1);
}

/// Of two sequences that differ exactly one comes before the other, and the order is
/// transitive.
pub proof fn lemma_bytes_order(a: Seq<u8>, b: Seq<u8>, c: Seq<u8>)
    ensures
        !bytes_lt(a, a),
        bytes_lt(a, b) || bytes_lt(b, a) || a == b,
        !(bytes_lt(a, b) && bytes_lt(b, a)),
        bytes_lt(a, b) && bytes_lt(b, c) ==> bytes_lt(a, c),
{
    lemma_bytes_irreflexive(a);
    lemma_bytes_total(a, b);
    if bytes_lt(a, b) && bytes_lt(b, a) {
        lemma_bytes_transitive(a, b, a);
    }
    if bytes_lt(a, b) && bytes_lt(b, c) {
        lemma_bytes_transitive(a, b, c);
    }
}

/// Whether `a` comes before `b`.
pub fn bytes_before(a: &[u8], b: &[u8]) -> (r: bool)
    ensures
        r == bytes_lt(a@, b@),
{
    let mut i: usize = 0;
    assert(a@.skip(0) =~= a@);
    assert(b@.skip(0) =~= b@);
    while i < a.len() && i < b.len()
        invariant
            i <= a@.len(),
            i <= b@.len(),
            bytes_lt(a@, b@) == bytes_lt(a@.skip(i as int), b@.skip(i as int)),
        decreases a@.len() - i,
    {
        assert(a@.skip(i as int).drop_first() =~= a@.skip(i + 1));
        assert(b@.skip(i as int).drop_first() =~= b@.skip(i + 1));
        if a[i] < b[i] {
            return true;
        }
        if a[i] > b[i] {
            return false;
        }
        i = i + 1;
    }
    i < b.len()
}

/// An item with a key to sort it by.
pub trait Keyed: Sized {
    /// The key of the item.
    spec fn sort_key(&self) -> SortKey;

    /// Whether the key of this item comes before that of another.
    fn before(&self, other: &Self) -> (r: bool)
        ensures
            r == key_lt(self.sort_key(), other.sort_key()),
    ;
}

impl Keyed for String {
    open spec fn sort_key(&self) -> SortKey {
        (encode_utf8(self@), Seq::empty(), 0)
    }

    fn before(&self, other: &Self) -> (r: bool) {
        proof {
            lemma_bytes_irreflexive(Seq::<u8>::empty());
        }
        bytes_before(self.as_str().as_bytes(), other.as_str().as_bytes())
    }
}

/// The key of an item, as a function.
pub open spec fn key_of<T: Keyed>() -> spec_fn(T) -> SortKey {
    |item: T| item.sort_key()
}

/// Where an item goes among sorted ones: in front of those that it comes before.
pub open spec fn insert_place<T>(s: Seq<T>, item: T, key: spec_fn(T) -> SortKey) -> int
    decreases s.len(),
{
    if s.len() > 0 && key_lt(key(item), key(s.last())) {
        insert_place(s.drop_last(), item, key)
    } else {
        s.len() as int
    }
}

/// The items in the order of their keys, those with equal keys in the order they had.
pub open spec fn sorted_by<T>(s: Seq<T>, key: spec_fn(T) -> SortKey) -> Seq<T>
    decreases s.len(),
{
    if s.len() == 0 {
        s
    } else {
        let rest = sorted_by(s.drop_last(), key);
        rest.insert(insert_place(rest, s.last(), key), s.last())
    }
}

/// The items in the order of their own keys.
pub open spec fn stable_sort<T: Keyed>(s: Seq<T>) -> Seq<T> {
    sorted_by(s, key_of::<T>())
}

/// Whether no item comes before one in front of it.
pub open spec fn in_order<T>(s: Seq<T>, key: spec_fn(T) -> SortKey) -> bool {
    forall|i: int, j: int|
        0 <= i < j < s.len() ==> !key_lt(key(#[trigger] s[j]), key(#[trigger] s[i]))
}

/// Whether the items are in the order of their own keys.
pub open spec fn is_sorted<T: Keyed>(s: Seq<T>) -> bool {
    in_order(s, key_of::<T>())
}

proof fn lemma_insert_place<T>(s: Seq<T>, item: T, key: spec_fn(T) -> SortKey)
    requires
        in_order(s, key),
    ensures
        0 <= insert_place(s, item, key) <= s.len(),
        forall|j: int|
            0 <= j < insert_place(s, item, key) ==> !key_lt(key(item), key(#[trigger] s[j])),
        forall|j: int|
            insert_place(s, item, key) <= j < s.len() ==> key_lt(key(item), key(#[trigger] s[j])),
    decreases s.len(),
{
    if s.len() > 0 {
        if key_lt(key(item), key(s.last())) {
            let t = s.drop_last();
            lemma_prefix_in_order(s, key);
            lemma_insert_place(t, item, key);
            assert forall|j: int| 0 <= j < insert_place(s, item, key) implies !key_lt(
                key(item),
                key(#[trigger] s[j]),
            ) by {
                assert(t[j] == s[j]);
            }
            assert forall|j: int| insert_place(s, item, key) <= j < s.len() implies key_lt(
                key(item),
                key(#[trigger] s[j]),
            ) by {
                if j < t.len() {
                    assert(t[j] == s[j]);
                }
            }
        } else {
            assert forall|j: int| 0 <= j < s.len() implies !key_lt(
                key(item),
                key(#[trigger] s[j]),
            ) by {
                if j < s.len() - 1 {
                    lemma_key_order(key(s[j]), key(s[s.len() - 1]), key(item));
                }
            }
        }
    }
}

/// Items in order are still so without the last.
pub proof fn lemma_prefix_in_order<T>(s: Seq<T>, key: spec_fn(T) -> SortKey)
    requires
        in_order(s, key),
        s.len() > 0,
    ensures
        in_order(s.drop_last(), key),
{
    let t = s.drop_last();
    assert forall|i: int, j: int| 0 <= i < j < t.len() implies !key_lt(
        key(#[trigger] t[j]),
        key(#[trigger] t[i]),
    ) by {
        assert(t[j] == s[j] && t[i] == s[i]);
    }
}

/// Sorting puts the items in order and neither adds nor drops any.
pub proof fn theorem_sorted_by<T>(s: Seq<T>, key: spec_fn(T) -> SortKey)
    ensures
        in_order(sorted_by(s, key), key),
        sorted_by(s, key).to_multiset() == s.to_multiset(),
        sorted_by(s, key).len() == s.len(),
    decreases s.len(),
{
    broadcast use vstd::seq_lib::group_to_multiset_ensures;

    if s.len() > 0 {
        let item = s.last();
        let rest = sorted_by(s.drop_last(), key);
        theorem_sorted_by(s.drop_last(), key);
        lemma_insert_place(rest, item, key);
        let k = insert_place(rest, item, key);
        let r = rest.insert(k, item);
        assert forall|i: int, j: int| 0 <= i < j < r.len() implies !key_lt(
            key(#[trigger] r[j]),
            key(#[trigger] r[i]),
        ) by {
            if i < k && j < k {
                assert(r[i] == rest[i] && r[j] == rest[j]);
            } else if i < k && j == k {
                assert(r[i] == rest[i]);
            } else if i < k {
                assert(r[i] == rest[i] && r[j] == rest[j - 1]);
            } else if i == k {
                assert(r[j] == rest[j - 1]);
                lemma_key_order(key(item), key(rest[j - 1]), key(item));
            } else {
                assert(r[i] == rest[i - 1] && r[j] == rest[j - 1]);
            }
        }
        vstd::seq_lib::to_multiset_insert(rest, k, item);
        assert(s =~= s.drop_last().push(item));
        vstd::seq_lib::to_multiset_build(s.drop_last(), item);
    }
}

/// Sorting puts the items in order and neither adds nor drops any.
pub proof fn theorem_stable_sort<T: Keyed>(s: Seq<T>)
    ensures
        is_sorted(stable_sort(s)),
        stable_sort(s).to_multiset() == s.to_multiset(),
        stable_sort(s).len() == s.len(),
{
    theorem_sorted_by(s, key_of::<T>());
}

/// Sorting what is in order changes nothing.
pub proof fn theorem_sort_in_order<T>(s: Seq<T>, key: spec_fn(T) -> SortKey)
    requires
        in_order(s, key),
    ensures
        sorted_by(s, key) == s,
    decreases s.len(),
{
    if s.len() > 0 {
        let t = s.drop_last();
        lemma_prefix_in_order(s, key);
        theorem_sort_in_order(t, key);
        if t.len() > 0 {
            assert(t.last() == s[s.len() - 2]);
            assert(s.last() == s[s.len() - 1]);
        }
        assert(insert_place(t, s.last(), key) == t.len());
        assert(t.insert(t.len() as int, s.last()) =~= s);
    } else {
        assert(sorted_by(s, key) =~= s);
    }
}

/// Sorting neither adds nor drops anything that items stand for.
pub proof fn lemma_sort_map_multiset<A, B>(
    s: Seq<A>,
    f: spec_fn(A) -> B,
    key: spec_fn(A) -> SortKey,
)
    ensures
        sorted_by(s, key).map_values(f).to_multiset() == s.map_values(f).to_multiset(),
    decreases s.len(),
{
    broadcast use vstd::seq_lib::group_to_multiset_ensures;

    if s.len() > 0 {
        let item = s.last();
        let rest = sorted_by(s.drop_last(), key);
        lemma_sort_map_multiset(s.drop_last(), f, key);
        theorem_sorted_by(s.drop_last(), key);
        lemma_insert_place(rest, item, key);
        let k = insert_place(rest, item, key);
        assert(rest.insert(k, item).map_values(f) =~= rest.map_values(f).insert(k, f(item)));
        vstd::seq_lib::to_multiset_insert(rest.map_values(f), k, f(item));
        assert(s.map_values(f) =~= s.drop_last().map_values(f).push(f(item)));
        vstd::seq_lib::to_multiset_build(s.drop_last().map_values(f), f(item));
    } else {
        assert(sorted_by(s, key) =~= s);
    }
}

/// What sorted items stand for is what the items stand for, sorted.
pub proof fn lemma_sort_map<A, B>(
    s: Seq<A>,
    f: spec_fn(A) -> B,
    key_a: spec_fn(A) -> SortKey,
    key_b: spec_fn(B) -> SortKey,
)
    requires
        forall|a: A| key_a(a) == #[trigger] key_b(f(a)),
    ensures
        sorted_by(s, key_a).map_values(f) == sorted_by(s.map_values(f), key_b),
    decreases s.len(),
{
    if s.len() > 0 {
        let t = s.drop_last();
        lemma_sort_map(t, f, key_a, key_b);
        assert(s.map_values(f).drop_last() =~= t.map_values(f));
        assert(s.map_values(f).last() == f(s.last()));
        let rest = sorted_by(t, key_a);
        lemma_place_map(rest, s.last(), f, key_a, key_b);
        theorem_sorted_by(t, key_a);
        lemma_insert_place(rest, s.last(), key_a);
        let k = insert_place(rest, s.last(), key_a);
        assert(rest.insert(k, s.last()).map_values(f) =~= rest.map_values(f).insert(
            k,
            f(s.last()),
        ));
    } else {
        assert(sorted_by(s, key_a).map_values(f) =~= sorted_by(s.map_values(f), key_b));
    }
}

proof fn lemma_place_map<A, B>(
    s: Seq<A>,
    item: A,
    f: spec_fn(A) -> B,
    key_a: spec_fn(A) -> SortKey,
    key_b: spec_fn(B) -> SortKey,
)
    requires
        forall|a: A| key_a(a) == #[trigger] key_b(f(a)),
    ensures
        insert_place(s, item, key_a) == insert_place(s.map_values(f), f(item), key_b),
    decreases s.len(),
{
    if s.len() > 0 {
        assert(s.map_values(f).last() == f(s.last()));
        assert(s.map_values(f).drop_last() =~= s.drop_last().map_values(f));
        assert(key_a(item) == key_b(f(item)));
        assert(key_a(s.last()) == key_b(f(s.last())));
        lemma_place_map(s.drop_last(), item, f, key_a, key_b);
    }
}

/// Sorts the items by their keys, keeping those with equal keys in order.
pub fn sort_items<T: Keyed>(v: &mut Vec<T>)
    ensures
        final(v)@ == stable_sort(old(v)@),
{
    let ghost all = v@;
    let ghost key = key_of::<T>();
    let mut waiting: Vec<T> = Vec::new();
    // The items wait in reverse, so that the next one is at the end.
    while v.len() > 0
        invariant
            v@ == all.take(v@.len() as int),
            v@.len() <= all.len(),
            waiting@ == all.skip(v@.len() as int).reverse(),
        decreases v@.len(),
    {
        let ghost n = v@.len() as int;
        let item = v.pop().unwrap();
        waiting.push(item);
        assert(v@ =~= all.take(n - 1));
        assert(waiting@ =~= all.skip(n - 1).reverse());
    }
    assert(all.skip(0) =~= all);
    assert(v@ =~= sorted_by(all.take(0), key));
    let ghost mut done: int = 0;
    while waiting.len() > 0
        invariant
            0 <= done <= all.len(),
            key == key_of::<T>(),
            waiting@ == all.skip(done).reverse(),
            v@ == sorted_by(all.take(done), key),
        decreases waiting@.len(),
    {
        let item = waiting.pop().unwrap();
        assert(item == all[done]);
        assert(waiting@ =~= all.skip(done + 1).reverse());
        assert(all.take(done + 1).drop_last() =~= all.take(done));
        let mut place: usize = v.len();
        assert(v@.take(v@.len() as int) =~= v@);
        while place > 0 && item.before(&v[place - 1])
            invariant
                place <= v@.len(),
                key == key_of::<T>(),
                insert_place(v@, item, key) == insert_place(v@.take(place as int), item, key),
            decreases place,
        {
            assert(v@.take(place as int).drop_last() =~= v@.take(place - 1));
            place = place - 1;
        }
        v.insert(place, item);
        proof {
            done = done + 1;
        }
    }
    assert(all.take(done) =~= all);
}

/// The order of byte sequences is that of dictionaries: one comes before another where it is the
/// start of it, or where the first byte in which they differ is smaller.
pub proof fn theorem_dictionary_order(a: Seq<u8>, b: Seq<u8>, k: int)
    requires
        0 <= k <= a.len(),
        k <= b.len(),
        a.take(k) == b.take(k),
    ensures
        k == a.len() ==> bytes_lt(a, b) == (k < b.len()),
        k == b.len() ==> !bytes_lt(a, b),
        k < a.len() && k < b.len() && a[k] != b[k] ==> bytes_lt(a, b) == (a[k] < b[k]),
    decreases k,
{
    if k > 0 {
        assert(a.take(k)[0] == a[0]);
        assert(b.take(k)[0] == b[0]);
        let x = a.drop_first();
        let y = b.drop_first();
        assert(x.take(k - 1) =~= a.take(k).drop_first());
        assert(y.take(k - 1) =~= b.take(k).drop_first());
        theorem_dictionary_order(x, y, k - 1);
    }
}

} // verus!
