use vstd::prelude::*;
use vstd::string::StringSliceAdditionalSpecFns;
use vstd::utf8::encode_utf8;
use crate::key_order::{
    bytes_less, compare_bytes, lemma_bytes_less_irreflexive, lemma_bytes_less_total,
    lemma_bytes_less_transitive, KeyOrder,
};

verus! {

/// A key with what is kept under it.
pub struct Entry<V> {
    pub key: String,
    pub value: V,
}

/// A map from texts to values that keeps its entries in the order of their
/// keys, byte by byte, each key once.
pub struct OrderedMap<V> {
    pub entries: Vec<Entry<V>>,
}

/// The keys stand in ascending order, none twice.
pub open spec fn is_sorted<V>(m: Seq<(Seq<u8>, V)>) -> bool {
    forall|i: int, j: int| 0 <= i < j < m.len() ==> bytes_less(#[trigger] m[i].0, #[trigger] m[j].0)
}

/// The first place from `from` on whose key does not stand before `key`.
pub open spec fn rank_from<V>(m: Seq<(Seq<u8>, V)>, key: Seq<u8>, from: int) -> int
    decreases m.len() - from,
{
    if 0 <= from < m.len() && bytes_less(m[from].0, key) {
        rank_from(m, key, from + 1)
    } else {
        from
    }
}

/// The place of `key` among the entries: where it stands, or where it
/// would stand.
pub open spec fn rank<V>(m: Seq<(Seq<u8>, V)>, key: Seq<u8>) -> int {
    rank_from(m, key, 0)
}

pub open spec fn has_key<V>(m: Seq<(Seq<u8>, V)>, key: Seq<u8>) -> bool {
    rank(m, key) < m.len() && m[rank(m, key)].0 == key
}

/// What is kept under `key`.
pub open spec fn value_at<V>(m: Seq<(Seq<u8>, V)>, key: Seq<u8>) -> Option<V> {
    if has_key(m, key) {
        Some(m[rank(m, key)].1)
    } else {
        None
    }
}

/// The entries with `value` under `key`, in place of what was there.
pub open spec fn put<V>(m: Seq<(Seq<u8>, V)>, key: Seq<u8>, value: V) -> Seq<(Seq<u8>, V)> {
    if has_key(m, key) {
        m.update(rank(m, key), (key, value))
    } else {
        m.insert(rank(m, key), (key, value))
    }
}

/// The entries without that of `key`.
pub open spec fn without<V>(m: Seq<(Seq<u8>, V)>, key: Seq<u8>) -> Seq<(Seq<u8>, V)> {
    if has_key(m, key) {
        m.remove(rank(m, key))
    } else {
        m
    }
}

pub proof fn lemma_rank_from_range<V>(m: Seq<(Seq<u8>, V)>, key: Seq<u8>, from: int)
    requires
        0 <= from <= m.len(),
    ensures
        from <= rank_from(m, key, from) <= m.len(),
        forall|j: int| from <= j < rank_from(m, key, from) ==> bytes_less(#[trigger] m[j].0, key),
        rank_from(m, key, from) < m.len() ==> !bytes_less(m[rank_from(m, key, from)].0, key),
    decreases m.len() - from,
{
    if from < m.len() && bytes_less(m[from].0, key) {
        lemma_rank_from_range(m, key, from + 1);
    }
}

/// The place of a key: the keys before it stand before the key, those from
/// it on do not.
pub proof fn lemma_rank<V>(m: Seq<(Seq<u8>, V)>, key: Seq<u8>)
    requires
        is_sorted(m),
    ensures
        0 <= rank(m, key) <= m.len(),
        forall|j: int| 0 <= j < rank(m, key) ==> bytes_less(#[trigger] m[j].0, key),
        forall|j: int| rank(m, key) <= j < m.len() ==> !bytes_less(#[trigger] m[j].0, key),
        forall|j: int| 0 <= j < m.len() && j != rank(m, key) ==> (#[trigger] m[j]).0 != key,
{
    lemma_rank_from_range(m, key, 0);
    let r = rank(m, key);
    assert forall|j: int| r <= j < m.len() implies !bytes_less(#[trigger] m[j].0, key) by {
        if r < j && bytes_less(m[j].0, key) {
            lemma_bytes_less_transitive(m[r].0, m[j].0, key);
        }
    }
    assert forall|j: int| 0 <= j < m.len() && j != r implies (#[trigger] m[j]).0 != key by {
        lemma_bytes_less_irreflexive(key);
        if j > r && m[j].0 == key {
            lemma_bytes_less_total(m[r].0, key);
        }
    }
}

/// A place with the keys before the key in front of it and no such key at
/// it is the place of the key.
pub proof fn lemma_rank_is<V>(m: Seq<(Seq<u8>, V)>, key: Seq<u8>, at: int)
    requires
        0 <= at <= m.len(),
        forall|j: int| 0 <= j < at ==> bytes_less(#[trigger] m[j].0, key),
        at < m.len() ==> !bytes_less(m[at].0, key),
    ensures
        rank(m, key) == at,
{
    lemma_rank_from_is(m, key, 0, at);
}

proof fn lemma_rank_from_is<V>(m: Seq<(Seq<u8>, V)>, key: Seq<u8>, from: int, at: int)
    requires
        0 <= from <= at <= m.len(),
        forall|j: int| 0 <= j < at ==> bytes_less(#[trigger] m[j].0, key),
        at < m.len() ==> !bytes_less(m[at].0, key),
    ensures
        rank_from(m, key, from) == at,
    decreases at - from,
{
    if from < at {
        lemma_rank_from_is(m, key, from + 1, at);
    }
}

/// Putting a value under a key keeps the order, and the other keys.
pub proof fn lemma_put<V>(m: Seq<(Seq<u8>, V)>, key: Seq<u8>, value: V)
    requires
        is_sorted(m),
    ensures
        is_sorted(put(m, key, value)),
        has_key(put(m, key, value), key),
        rank(put(m, key, value), key) == rank(m, key),
        value_at(put(m, key, value), key) == Some(value),
        put(m, key, value).len() == m.len() + if has_key(m, key) {
            0int
        } else {
            1int
        },
{
    lemma_rank(m, key);
    let r = rank(m, key);
    let n = put(m, key, value);
    assert forall|i: int, j: int| 0 <= i < j < n.len() implies bytes_less(
        #[trigger] n[i].0,
        #[trigger] n[j].0,
    ) by {
        if has_key(m, key) {
            assert(n[i].0 == m[i].0 && n[j].0 == m[j].0);
        } else {
            if j < r {
                assert(n[i] == m[i] && n[j] == m[j]);
            } else if j == r {
                assert(n[i] == m[i]);
            } else if i == r {
                assert(n[j] == m[j - 1]);
                lemma_bytes_less_total(m[j - 1].0, key);
            } else if i < r {
                assert(n[i] == m[i] && n[j] == m[j - 1]);
            } else {
                assert(n[i] == m[i - 1] && n[j] == m[j - 1]);
            }
        }
    }
    lemma_bytes_less_irreflexive(key);
    assert forall|j: int| 0 <= j < r implies bytes_less(#[trigger] n[j].0, key) by {
        assert(n[j].0 == m[j].0);
    }
    lemma_rank_is(n, key, r);
}

/// Taking a key out keeps the order.
pub proof fn lemma_without<V>(m: Seq<(Seq<u8>, V)>, key: Seq<u8>)
    requires
        is_sorted(m),
    ensures
        is_sorted(without(m, key)),
        !has_key(without(m, key), key),
        rank(without(m, key), key) == rank(m, key),
        without(m, key).len() == m.len() - if has_key(m, key) {
            1int
        } else {
            0int
        },
{
    lemma_rank(m, key);
    let r = rank(m, key);
    let n = without(m, key);
    if has_key(m, key) {
        assert forall|i: int, j: int| 0 <= i < j < n.len() implies bytes_less(
            #[trigger] n[i].0,
            #[trigger] n[j].0,
        ) by {
            let a = if i < r { i } else { i + 1 };
            let b = if j < r { j } else { j + 1 };
            assert(n[i] == m[a] && n[j] == m[b]);
        }
        assert forall|j: int| 0 <= j < r implies bytes_less(#[trigger] n[j].0, key) by {
            assert(n[j] == m[j]);
        }
        if r < n.len() {
            assert(n[r] == m[r + 1]);
            lemma_bytes_less_total(m[r + 1].0, key);
            lemma_bytes_less_irreflexive(key);
        }
        lemma_rank_is(n, key, r);
        if r < n.len() {
            assert(bytes_less(m[r].0, m[r + 1].0));
            lemma_bytes_less_irreflexive(key);
        }
    }
}

/// Putting a value under a key that was taken out is putting it in place
/// of what was there.
pub proof fn lemma_put_after_without<V>(m: Seq<(Seq<u8>, V)>, key: Seq<u8>, value: V)
    requires
        is_sorted(m),
    ensures
        put(without(m, key), key, value) == put(m, key, value),
{
    lemma_rank(m, key);
    lemma_without(m, key);
    assert(put(without(m, key), key, value) =~= put(m, key, value));
}

/// Of two values put under one key the second stays.
pub proof fn lemma_put_after_put<V>(m: Seq<(Seq<u8>, V)>, key: Seq<u8>, first: V, second: V)
    requires
        is_sorted(m),
    ensures
        put(put(m, key, first), key, second) == put(m, key, second),
{
    lemma_rank(m, key);
    lemma_put(m, key, first);
    assert(put(put(m, key, first), key, second) =~= put(m, key, second));
}

/// Taking out a key under which a value was put is taking out the key.
pub proof fn lemma_without_after_put<V>(m: Seq<(Seq<u8>, V)>, key: Seq<u8>, value: V)
    requires
        is_sorted(m),
    ensures
        without(put(m, key, value), key) == without(m, key),
{
    lemma_rank(m, key);
    lemma_put(m, key, value);
    assert(without(put(m, key, value), key) =~= without(m, key));
}

/// What `put` does to the places: the entries before the key's place stay,
/// the key's place holds the new entry, and those behind it stay or move
/// up by one.
pub proof fn lemma_put_places<V>(m: Seq<(Seq<u8>, V)>, key: Seq<u8>, value: V)
    requires
        is_sorted(m),
    ensures
        0 <= rank(m, key) <= m.len(),
        put(m, key, value)[rank(m, key)] == (key, value),
        forall|i: int| 0 <= i < rank(m, key) ==> #[trigger] put(m, key, value)[i] == m[i],
        has_key(m, key) ==> forall|i: int|
            rank(m, key) < i < m.len() ==> #[trigger] put(m, key, value)[i] == m[i],
        !has_key(m, key) ==> forall|i: int|
            rank(m, key) < i <= m.len() ==> #[trigger] put(m, key, value)[i] == m[i - 1],
        forall|i: int| 0 <= i < m.len() && i != rank(m, key) ==> (#[trigger] m[i]).0 != key,
{
    lemma_rank(m, key);
}

/// What `without` does to the places.
pub proof fn lemma_without_places<V>(m: Seq<(Seq<u8>, V)>, key: Seq<u8>)
    requires
        is_sorted(m),
        has_key(m, key),
    ensures
        0 <= rank(m, key) < m.len(),
        without(m, key).len() == m.len() - 1,
        forall|i: int| 0 <= i < rank(m, key) ==> #[trigger] without(m, key)[i] == m[i],
        forall|i: int|
            rank(m, key) <= i < m.len() - 1 ==> #[trigger] without(m, key)[i] == m[i + 1],
        forall|i: int| 0 <= i < m.len() && i != rank(m, key) ==> (#[trigger] m[i]).0 != key,
{
    lemma_rank(m, key);
}

/// An entry's key is kept under that key.
pub proof fn lemma_value_at_place<V>(m: Seq<(Seq<u8>, V)>, at: int)
    requires
        is_sorted(m),
        0 <= at < m.len(),
    ensures
        rank(m, m[at].0) == at,
        has_key(m, m[at].0),
        value_at(m, m[at].0) == Some(m[at].1),
{
    lemma_bytes_less_irreflexive(m[at].0);
    lemma_rank_is(m, m[at].0, at);
}

/// What is kept under other keys stays where a value is put in.
pub proof fn lemma_put_other<V>(m: Seq<(Seq<u8>, V)>, key: Seq<u8>, value: V, other: Seq<u8>)
    requires
        is_sorted(m),
        other != key,
    ensures
        value_at(put(m, key, value), other) == value_at(m, other),
        has_key(put(m, key, value), other) == has_key(m, other),
{
    lemma_put(m, key, value);
    lemma_put_places(m, key, value);
    lemma_rank(m, other);
    let r = rank(m, key);
    let m2 = put(m, key, value);
    lemma_rank(m2, other);
    if has_key(m, other) {
        let i = rank(m, other);
        let a = if i < r || has_key(m, key) { i } else { i + 1 };
        assert(m2[a] == m[i]);
        lemma_value_at_place(m2, a);
    }
    if has_key(m2, other) {
        let a = rank(m2, other);
        assert(a != r);
        let i = if a < r || has_key(m, key) { a } else { a - 1 };
        assert(m2[a] == m[i]);
        lemma_value_at_place(m, i);
    }
}

/// What is kept under other keys stays where a key is taken out.
pub proof fn lemma_without_other<V>(m: Seq<(Seq<u8>, V)>, key: Seq<u8>, other: Seq<u8>)
    requires
        is_sorted(m),
        other != key,
    ensures
        value_at(without(m, key), other) == value_at(m, other),
        has_key(without(m, key), other) == has_key(m, other),
{
    lemma_without(m, key);
    lemma_rank(m, other);
    let r = rank(m, key);
    let m2 = without(m, key);
    lemma_rank(m2, other);
    if has_key(m, key) {
        lemma_without_places(m, key);
        if has_key(m, other) {
            let i = rank(m, other);
            let a = if i < r { i } else { i - 1 };
            assert(m2[a] == m[i]);
            lemma_value_at_place(m2, a);
        }
        if has_key(m2, other) {
            let a = rank(m2, other);
            let i = if a < r { a } else { a + 1 };
            assert(m2[a] == m[i]);
            lemma_value_at_place(m, i);
        }
    }
}

/// The sum over the first places grows place by place.
pub proof fn lemma_total_take<V>(m: Seq<(Seq<u8>, V)>, of: spec_fn(V) -> int, count: int)
    requires
        0 <= count < m.len(),
    ensures
        total(m.take(count + 1), of) == total(m.take(count), of) + of(m[count].1),
{
    assert(m.take(count + 1).drop_last() =~= m.take(count));
}

/// The keys of the entries.
pub open spec fn keys_of<V>(m: Seq<(Seq<u8>, V)>) -> Seq<Seq<u8>> {
    m.map_values(|entry: (Seq<u8>, V)| entry.0)
}

/// A list of different keys, all of them keys of the map, is not longer
/// than the map.
pub proof fn lemma_keys_fit<V>(m: Seq<(Seq<u8>, V)>, keys: Seq<Seq<u8>>)
    requires
        is_sorted(m),
        keys.no_duplicates(),
        forall|j: int| 0 <= j < keys.len() ==> has_key(m, #[trigger] keys[j]),
    ensures
        keys.len() <= m.len(),
{
    let all = keys_of(m);
    assert(all.no_duplicates()) by {
        assert forall|i: int, j: int| 0 <= i < all.len() && 0 <= j < all.len() && i != j implies all[i]
            != all[j] by {
            if i < j {
                assert(bytes_less(m[i].0, m[j].0));
            } else {
                assert(bytes_less(m[j].0, m[i].0));
            }
            lemma_bytes_less_irreflexive(m[i].0);
        }
    }
    keys.unique_seq_to_set();
    all.unique_seq_to_set();
    vstd::seq_lib::seq_to_set_is_finite(all);
    assert(keys.to_set().subset_of(all.to_set())) by {
        assert forall|key: Seq<u8>| keys.to_set().contains(key) implies all.to_set().contains(
            key,
        ) by {
            let j = choose|j: int| 0 <= j < keys.len() && keys[j] == key;
            lemma_rank(m, keys[j]);
            assert(all[rank(m, key)] == key);
        }
    }
    vstd::set_lib::lemma_len_subset(keys.to_set(), all.to_set());
}

/// Where no value of the map has more of one number than of another, the
/// sum of the one is not more than that of the other.
pub proof fn lemma_total_not_more<V>(
    m: Seq<(Seq<u8>, V)>,
    one: spec_fn(V) -> int,
    other: spec_fn(V) -> int,
)
    requires
        forall|i: int| 0 <= i < m.len() ==> one((#[trigger] m[i]).1) <= other(m[i].1),
    ensures
        total(m, one) <= total(m, other),
    decreases m.len(),
{
    if m.len() > 0 {
        assert forall|i: int| 0 <= i < m.drop_last().len() implies one(
            (#[trigger] m.drop_last()[i]).1,
        ) <= other(m.drop_last()[i].1) by {
            assert(m.drop_last()[i] == m[i]);
        }
        lemma_total_not_more(m.drop_last(), one, other);
        assert(m.last() == m[m.len() - 1]);
    }
}

/// The sum of a number that each value has.
pub open spec fn total<V>(m: Seq<(Seq<u8>, V)>, of: spec_fn(V) -> int) -> int
    decreases m.len(),
{
    if m.len() == 0 {
        0
    } else {
        total(m.drop_last(), of) + of(m.last().1)
    }
}

/// The number of a value that may be there.
pub open spec fn number_of<V>(value: Option<V>, of: spec_fn(V) -> int) -> int {
    match value {
        Some(v) => of(v),
        None => 0,
    }
}

/// One more value makes the sum more by its number.
pub proof fn lemma_total_insert<V>(
    m: Seq<(Seq<u8>, V)>,
    of: spec_fn(V) -> int,
    at: int,
    entry: (Seq<u8>, V),
)
    requires
        0 <= at <= m.len(),
    ensures
        total(m.insert(at, entry), of) == total(m, of) + of(entry.1),
    decreases m.len() - at,
{
    let n = m.insert(at, entry);
    if at == m.len() {
        assert(n.drop_last() =~= m);
    } else {
        lemma_total_insert(m.drop_last(), of, at, entry);
        assert(n.drop_last() =~= m.drop_last().insert(at, entry));
        assert(n.last() == m.last());
    }
}

/// One value less makes the sum less by its number.
pub proof fn lemma_total_remove<V>(m: Seq<(Seq<u8>, V)>, of: spec_fn(V) -> int, at: int)
    requires
        0 <= at < m.len(),
    ensures
        total(m.remove(at), of) == total(m, of) - of(m[at].1),
    decreases m.len() - at,
{
    let n = m.remove(at);
    if at == m.len() - 1 {
        assert(n =~= m.drop_last());
    } else {
        lemma_total_remove(m.drop_last(), of, at);
        assert(n.drop_last() =~= m.drop_last().remove(at));
        assert(n.last() == m.last());
    }
}

/// Another value at a place changes the sum by the difference.
pub proof fn lemma_total_update<V>(
    m: Seq<(Seq<u8>, V)>,
    of: spec_fn(V) -> int,
    at: int,
    entry: (Seq<u8>, V),
)
    requires
        0 <= at < m.len(),
    ensures
        total(m.update(at, entry), of) == total(m, of) - of(m[at].1) + of(entry.1),
{
    lemma_total_remove(m, of, at);
    lemma_total_insert(m.remove(at), of, at, entry);
    assert(m.remove(at).insert(at, entry) =~= m.update(at, entry));
}

/// The sum after a value was put under a key.
pub proof fn lemma_total_put<V>(
    m: Seq<(Seq<u8>, V)>,
    of: spec_fn(V) -> int,
    key: Seq<u8>,
    value: V,
)
    requires
        is_sorted(m),
    ensures
        total(put(m, key, value), of) == total(m, of) + of(value) - number_of(
            value_at(m, key),
            of,
        ),
{
    lemma_rank(m, key);
    if has_key(m, key) {
        lemma_total_update(m, of, rank(m, key), (key, value));
    } else {
        lemma_total_insert(m, of, rank(m, key), (key, value));
    }
}

/// The sum after a key was taken out.
pub proof fn lemma_total_without<V>(m: Seq<(Seq<u8>, V)>, of: spec_fn(V) -> int, key: Seq<u8>)
    requires
        is_sorted(m),
    ensures
        total(without(m, key), of) == total(m, of) - number_of(value_at(m, key), of),
{
    lemma_rank(m, key);
    if has_key(m, key) {
        lemma_total_remove(m, of, rank(m, key));
    }
}

/// A sum of numbers that are not negative is not negative, and not less
/// than any of them.
pub proof fn lemma_total_bounds<V>(m: Seq<(Seq<u8>, V)>, of: spec_fn(V) -> int)
    requires
        forall|v: V| 0 <= #[trigger] of(v),
    ensures
        0 <= total(m, of),
        forall|i: int| 0 <= i < m.len() ==> of((#[trigger] m[i]).1) <= total(m, of),
    decreases m.len(),
{
    if m.len() > 0 {
        lemma_total_bounds(m.drop_last(), of);
        assert forall|i: int| 0 <= i < m.len() implies of((#[trigger] m[i]).1) <= total(m, of) by {
            if i < m.len() - 1 {
                assert(m.drop_last()[i] == m[i]);
            }
        }
    }
}

impl<V> View for OrderedMap<V> {
    type V = Seq<(Seq<u8>, V)>;

    open spec fn view(&self) -> Seq<(Seq<u8>, V)> {
        self.entries@.map_values(|e: Entry<V>| (encode_utf8(e.key@), e.value))
    }
}

impl<V> OrderedMap<V> {
    pub open spec fn wf(&self) -> bool {
        is_sorted(self@)
    }

    pub fn new() -> (r: Self)
        ensures
            r.wf(),
            r@.len() == 0,
    {
        OrderedMap { entries: Vec::new() }
    }

    pub fn len(&self) -> (r: usize)
        ensures
            r == self@.len(),
    {
        self.entries.len()
    }

    /// The place of `key`, and whether the key stands there.
    pub fn find(&self, key: &str) -> (r: (usize, bool))
        requires
            self.wf(),
        ensures
            r.0 == rank(self@, key.spec_bytes()),
            r.1 == has_key(self@, key.spec_bytes()),
            r.0 <= self@.len(),
    {
        let wanted = key.as_bytes();
        let mut low: usize = 0;
        let mut high: usize = self.entries.len();
        while low < high
            invariant
                self.wf(),
                wanted@ == key.spec_bytes(),
                low <= high <= self.entries.len(),
                forall|j: int| 0 <= j < low ==> bytes_less(#[trigger] self@[j].0, wanted@),
                forall|j: int| high <= j < self@.len() ==> !bytes_less(#[trigger] self@[j].0, wanted@),
                forall|j: int| high <= j < self@.len() ==> (#[trigger] self@[j]).0 != wanted@,
            decreases high - low,
        {
            let middle: usize = low + (high - low) / 2;
            let here = self.entries[middle].key.as_str().as_bytes();
            assert(here@ == self@[middle as int].0);
            match compare_bytes(here, wanted) {
                KeyOrder::Before => {
                    assert forall|j: int| 0 <= j < middle + 1 implies bytes_less(
                        #[trigger] self@[j].0,
                        wanted@,
                    ) by {
                        if j < middle {
                            lemma_bytes_less_transitive(self@[j].0, self@[middle as int].0, wanted@);
                        }
                    }
                    low = middle + 1;
                },
                KeyOrder::Same => {
                    proof {
                        lemma_bytes_less_irreflexive(wanted@);
                        assert forall|j: int| 0 <= j < middle implies bytes_less(
                            #[trigger] self@[j].0,
                            wanted@,
                        ) by {
                            assert(bytes_less(self@[j].0, self@[middle as int].0));
                        }
                        lemma_rank_is(self@, wanted@, middle as int);
                    }
                    return (middle, true);
                },
                KeyOrder::After => {
                    assert forall|j: int| middle <= j < self@.len() implies !bytes_less(
                        #[trigger] self@[j].0,
                        wanted@,
                    ) && self@[j].0 != wanted@ by {
                        lemma_bytes_less_total(self@[middle as int].0, wanted@);
                        if j > middle {
                            assert(bytes_less(self@[middle as int].0, self@[j].0));
                            if bytes_less(self@[j].0, wanted@) || self@[j].0 == wanted@ {
                                if bytes_less(self@[j].0, wanted@) {
                                    lemma_bytes_less_transitive(
                                        self@[middle as int].0,
                                        self@[j].0,
                                        wanted@,
                                    );
                                }
                            }
                        }
                    }
                    high = middle;
                },
            }
        }
        proof {
            lemma_rank_is(self@, wanted@, low as int);
        }
        (low, false)
    }

    pub fn contains_key(&self, key: &str) -> (r: bool)
        requires
            self.wf(),
        ensures
            r == has_key(self@, key.spec_bytes()),
    {
        self.find(key).1
    }

    /// What is kept under `key`.
    pub fn get(&self, key: &str) -> (r: Option<&V>)
        requires
            self.wf(),
        ensures
            match r {
                Some(value) => value_at(self@, key.spec_bytes()) == Some(*value),
                None => value_at(self@, key.spec_bytes()) is None,
            },
    {
        let (at, found) = self.find(key);
        if found {
            Some(&self.entries[at].value)
        } else {
            None
        }
    }

    /// What is kept at the place `at`.
    pub fn value(&self, at: usize) -> (r: &V)
        requires
            at < self@.len(),
        ensures
            *r == self@[at as int].1,
    {
        &self.entries[at].value
    }

    /// The key at the place `at`.
    pub fn key(&self, at: usize) -> (r: &String)
        requires
            at < self@.len(),
        ensures
            encode_utf8(r@) == self@[at as int].0,
    {
        &self.entries[at].key
    }

    /// What is kept at the place `at`, to be changed where it stands.
    pub fn value_mut(&mut self, at: usize) -> (r: &mut V)
        requires
            at < old(self)@.len(),
        ensures
            *r == old(self)@[at as int].1,
            final(self)@ == old(self)@.update(at as int, (old(self)@[at as int].0, *final(r))),
    {
        &mut self.entries[at].value
    }

    /// Puts `value` under `key` and gives back what was there.
    pub fn insert(&mut self, key: String, value: V) -> (r: Option<V>)
        requires
            old(self).wf(),
        ensures
            final(self).wf(),
            final(self)@ == put(old(self)@, encode_utf8(key@), value),
            r == value_at(old(self)@, encode_utf8(key@)),
    {
        let (at, found) = self.find(key.as_str());
        proof {
            lemma_put(self@, encode_utf8(key@), value);
        }
        if found {
            let ghost before = self@;
            let old_entry = self.entries.remove(at);
            self.entries.insert(at, Entry { key, value });
            assert(self@ =~= before.update(at as int, (encode_utf8(key@), value)));
            Some(old_entry.value)
        } else {
            let ghost before = self@;
            self.entries.insert(at, Entry { key, value });
            assert(self@ =~= before.insert(at as int, (encode_utf8(key@), value)));
            None
        }
    }

    /// Takes out what is kept under `key`.
    pub fn remove(&mut self, key: &str) -> (r: Option<V>)
        requires
            old(self).wf(),
        ensures
            final(self).wf(),
            final(self)@ == without(old(self)@, key.spec_bytes()),
            r == value_at(old(self)@, key.spec_bytes()),
    {
        let (at, found) = self.find(key);
        proof {
            lemma_without(self@, key.spec_bytes());
        }
        if found {
            let ghost before = self@;
            let entry = self.entries.remove(at);
            assert(self@ =~= before.remove(at as int));
            Some(entry.value)
        } else {
            None
        }
    }
}

} // verus!
