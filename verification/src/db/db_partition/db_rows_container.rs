use std::sync::Arc;
use vstd::prelude::*;
use vstd::string::StringSliceAdditionalSpecFns;
use vstd::utf8::encode_utf8;
use crate::date_time::DateTimeAsMicroseconds;
use crate::db::db_row::{is_with_expiration, share, DbRow};
use crate::lru::{are_oldest, oldest, places_of};
use crate::expiration_index::{
    due_count, due_items, lemma_due_count, lemma_place_of_same_from, lemma_with_item, lemma_without_item,
    moments_ascend, place_of_same, with_item, without_item, ExpirationIndex,
    ExpirationItemsAreSame,
};
use crate::ordered_map::{
    has_key, is_sorted, lemma_put, lemma_put_after_without, lemma_put_places, lemma_rank,
    lemma_value_at_place, lemma_without, lemma_without_places, put, rank, value_at, without,
    OrderedMap,
};
use crate::text::lemma_same_bytes_same_text;

verus! {

/// The rows of a partition in the order of their keys, and beside them the
/// rows that expire, in the order of their instants.
pub struct DbRowsContainer {
    pub data: OrderedMap<Arc<DbRow>>,
    pub rows_with_expiration_index: ExpirationIndex<Arc<DbRow>>,
}

/// Each row is kept under its own key, and its `Expires` field lies within
/// its bytes.
pub open spec fn rows_are_keyed(m: Seq<(Seq<u8>, Arc<DbRow>)>) -> bool {
    forall|i: int| 0 <= i < m.len() ==> (#[trigger] m[i]).0 == m[i].1.key() && m[i].1.wf()
}

/// The instant under which a row stands in the index, where it expires.
pub open spec fn index_entry(row: Arc<DbRow>) -> Option<(i64, Arc<DbRow>)> {
    match row.expires {
        Some(moment) => Some((moment.unix_microseconds, row)),
        None => None,
    }
}

/// Whether the row is one of the rows.
pub open spec fn row_in(m: Seq<(Seq<u8>, Arc<DbRow>)>, row: Arc<DbRow>) -> bool {
    exists|i: int| 0 <= i < m.len() && (#[trigger] m[i]).1 == row
}

/// Each entry of the index stands under the instant of its row, and its
/// row is one of the rows.
pub open spec fn entries_are_rows(
    m: Seq<(Seq<u8>, Arc<DbRow>)>,
    e: Seq<(i64, Arc<DbRow>)>,
) -> bool {
    forall|j: int|
        0 <= j < e.len() ==> index_entry((#[trigger] e[j]).1) == Some(e[j]) && row_in(m, e[j].1)
}

/// Each row that expires, but for the one under `except`, has its entry in
/// the index.
pub open spec fn rows_are_entries(
    m: Seq<(Seq<u8>, Arc<DbRow>)>,
    e: Seq<(i64, Arc<DbRow>)>,
    except: Option<Seq<u8>>,
) -> bool {
    forall|i: int|
        0 <= i < m.len() && (#[trigger] m[i]).1.expires is Some && Some(m[i].0) != except
            ==> e.contains(index_entry(m[i].1).unwrap())
}

/// No two entries of the index have rows of one key.
pub open spec fn keys_differ(e: Seq<(i64, Arc<DbRow>)>) -> bool {
    forall|j: int, k: int|
        0 <= j < k < e.len() ==> (#[trigger] e[j]).1.key() != (#[trigger] e[k]).1.key()
}

/// No entry of the index has a row of that key.
pub open spec fn lacks_key(e: Seq<(i64, Arc<DbRow>)>, key: Seq<u8>) -> bool {
    forall|j: int| 0 <= j < e.len() ==> (#[trigger] e[j]).1.key() != key
}

/// The index holds the rows that expire, each once and under its instant,
/// and nothing else.
pub open spec fn index_matches_rows(
    m: Seq<(Seq<u8>, Arc<DbRow>)>,
    e: Seq<(i64, Arc<DbRow>)>,
) -> bool {
    &&& entries_are_rows(m, e)
    &&& rows_are_entries(m, e, None)
    &&& keys_differ(e)
}

/// The index without the entry of `row`.
pub open spec fn index_without_row(e: Seq<(i64, Arc<DbRow>)>, row: Option<Arc<DbRow>>) -> Seq<
    (i64, Arc<DbRow>),
> {
    match row {
        Some(r) => match r.expires {
            Some(moment) => without_item(e, moment.unix_microseconds, r),
            None => e,
        },
        None => e,
    }
}

/// The index with an entry for `row`, where the row expires.
pub open spec fn index_with_row(e: Seq<(i64, Arc<DbRow>)>, row: Arc<DbRow>) -> Seq<
    (i64, Arc<DbRow>),
> {
    match row.expires {
        Some(moment) => with_item(e, moment.unix_microseconds, row),
        None => e,
    }
}

/// Rows are the same for the index where their key bytes are the same.
pub proof fn lemma_same_row_same_key(a: Arc<DbRow>, b: Arc<DbRow>)
    ensures
        a.same_as(&b) <==> a.key() == b.key(),
{
    if a.key() == b.key() {
        lemma_same_bytes_same_text(a.row_key@, b.row_key@);
    }
}

/// A row of the rows is kept under its key.
pub proof fn lemma_row_in_is_kept(m: Seq<(Seq<u8>, Arc<DbRow>)>, row: Arc<DbRow>)
    requires
        is_sorted(m),
        rows_are_keyed(m),
        row_in(m, row),
    ensures
        value_at(m, row.key()) == Some(row),
{
    let i = choose|i: int| 0 <= i < m.len() && (#[trigger] m[i]).1 == row;
    lemma_value_at_place(m, i);
}

/// The row kept under a key is one of the rows.
pub proof fn lemma_kept_is_row_in(m: Seq<(Seq<u8>, Arc<DbRow>)>, key: Seq<u8>)
    requires
        is_sorted(m),
        rows_are_keyed(m),
    ensures
        value_at(m, key) matches Some(row) ==> row_in(m, row) && row.key() == key && row.wf(),
{
    lemma_rank(m, key);
    if has_key(m, key) {
        assert(m[rank(m, key)].1 == value_at(m, key).unwrap());
    }
}

/// The rows after `put`: the new one, and the old ones of other keys.
pub proof fn lemma_put_rows(
    m: Seq<(Seq<u8>, Arc<DbRow>)>,
    row: Arc<DbRow>,
    other: Arc<DbRow>,
)
    requires
        is_sorted(m),
        rows_are_keyed(m),
    ensures
        row_in(put(m, row.key(), row), other) <==> (other == row || (row_in(m, other)
            && other.key() != row.key())),
{
    let key = row.key();
    lemma_put(m, key, row);
    lemma_put_places(m, key, row);
    let r = rank(m, key);
    let m2 = put(m, key, row);
    if row_in(m2, other) {
        let a = choose|a: int| 0 <= a < m2.len() && (#[trigger] m2[a]).1 == other;
        if a < r {
            assert(m2[a] == m[a]);
        } else if a == r {
        } else if has_key(m, key) {
            assert(m2[a] == m[a]);
        } else {
            assert(m2[a] == m[a - 1]);
        }
    }
    if other == row {
        assert(m2[r].1 == row);
    }
    if row_in(m, other) && other.key() != key {
        let i = choose|i: int| 0 <= i < m.len() && (#[trigger] m[i]).1 == other;
        if i < r {
            assert(m2[i] == m[i]);
        } else if has_key(m, key) {
            assert(m2[i] == m[i]);
        } else {
            assert(m2[i + 1] == m[i]);
        }
    }
}

/// `put` keeps each row under its own key.
pub proof fn lemma_put_keyed(m: Seq<(Seq<u8>, Arc<DbRow>)>, row: Arc<DbRow>)
    requires
        is_sorted(m),
        rows_are_keyed(m),
        row.wf(),
    ensures
        rows_are_keyed(put(m, row.key(), row)),
{
    let key = row.key();
    lemma_put_places(m, key, row);
    let r = rank(m, key);
    let m2 = put(m, key, row);
    assert forall|a: int| 0 <= a < m2.len() implies (#[trigger] m2[a]).0 == m2[a].1.key()
        && m2[a].1.wf() by {
        if a < r {
            assert(m2[a] == m[a]);
        } else if a == r {
        } else if has_key(m, key) {
            assert(m2[a] == m[a]);
        } else {
            assert(m2[a] == m[a - 1]);
        }
    }
}

/// The rows after `without`: the old ones of other keys.
pub proof fn lemma_without_rows(m: Seq<(Seq<u8>, Arc<DbRow>)>, key: Seq<u8>, other: Arc<DbRow>)
    requires
        is_sorted(m),
        rows_are_keyed(m),
    ensures
        row_in(without(m, key), other) <==> (row_in(m, other) && other.key() != key),
{
    lemma_rank(m, key);
    let r = rank(m, key);
    let m2 = without(m, key);
    if has_key(m, key) {
        lemma_without_places(m, key);
        if row_in(m2, other) {
            let a = choose|a: int| 0 <= a < m2.len() && (#[trigger] m2[a]).1 == other;
            if a < r {
                assert(m2[a] == m[a]);
            } else {
                assert(m2[a] == m[a + 1]);
            }
        }
        if row_in(m, other) && other.key() != key {
            let i = choose|i: int| 0 <= i < m.len() && (#[trigger] m[i]).1 == other;
            if i < r {
                assert(m2[i] == m[i]);
            } else {
                assert(m2[i - 1] == m[i]);
            }
        }
    } else {
        if row_in(m, other) && other.key() == key {
            lemma_row_in_is_kept(m, other);
        }
    }
}

/// `without` keeps each row under its own key.
pub proof fn lemma_without_keyed(m: Seq<(Seq<u8>, Arc<DbRow>)>, key: Seq<u8>)
    requires
        is_sorted(m),
        rows_are_keyed(m),
    ensures
        rows_are_keyed(without(m, key)),
{
    lemma_rank(m, key);
    let r = rank(m, key);
    let m2 = without(m, key);
    if has_key(m, key) {
        lemma_without_places(m, key);
        assert forall|a: int| 0 <= a < m2.len() implies (#[trigger] m2[a]).0 == m2[a].1.key()
            && m2[a].1.wf() by {
            if a < r {
                assert(m2[a] == m[a]);
            } else {
                assert(m2[a] == m[a + 1]);
            }
        }
    }
}

/// The entries after `with_item`: the new one and the old ones.
pub proof fn lemma_with_item_entries(
    e: Seq<(i64, Arc<DbRow>)>,
    moment: i64,
    row: Arc<DbRow>,
    other: (i64, Arc<DbRow>),
)
    requires
        moments_ascend(e),
    ensures
        with_item(e, moment, row).contains(other) <==> (other == (moment, row) || e.contains(
            other,
        )),
{
    lemma_due_count(e, moment);
    let c = crate::expiration_index::due_count(e, moment);
    let n = with_item(e, moment, row);
    if n.contains(other) {
        let j = choose|j: int| 0 <= j < n.len() && n[j] == other;
        if j < c {
            assert(e[j] == other);
        } else if j > c {
            assert(e[j - 1] == other);
        }
    }
    if other == (moment, row) {
        assert(n[c] == other);
    }
    if e.contains(other) {
        let j = choose|j: int| 0 <= j < e.len() && e[j] == other;
        if j < c {
            assert(n[j] == other);
        } else {
            assert(n[j + 1] == other);
        }
    }
}

/// The entries after taking the one at a place out: the old ones at other
/// places.
pub proof fn lemma_remove_entries(
    e: Seq<(i64, Arc<DbRow>)>,
    at: int,
    other: (i64, Arc<DbRow>),
)
    requires
        0 <= at < e.len(),
        keys_differ(e),
    ensures
        e.remove(at).contains(other) <==> (e.contains(other) && other.1.key() != e[at].1.key()),
{
    let n = e.remove(at);
    if n.contains(other) {
        let j = choose|j: int| 0 <= j < n.len() && n[j] == other;
        let a = if j < at { j } else { j + 1 };
        assert(e[a] == other);
        if a < at {
            assert(e[a].1.key() != e[at].1.key());
        } else {
            assert(e[at].1.key() != e[a].1.key());
        }
    }
    if e.contains(other) && other.1.key() != e[at].1.key() {
        let j = choose|j: int| 0 <= j < e.len() && e[j] == other;
        let a = if j < at { j } else { j - 1 };
        assert(n[a] == other);
    }
}

/// Taking an entry out leaves entries of different keys.
pub proof fn lemma_remove_keys_differ(e: Seq<(i64, Arc<DbRow>)>, at: int)
    requires
        0 <= at < e.len(),
        keys_differ(e),
    ensures
        keys_differ(e.remove(at)),
        lacks_key(e.remove(at), e[at].1.key()),
{
    let n = e.remove(at);
    assert forall|j: int, k: int| 0 <= j < k < n.len() implies (#[trigger] n[j]).1.key() != (
    #[trigger] n[k]).1.key() by {
        let a = if j < at { j } else { j + 1 };
        let b = if k < at { k } else { k + 1 };
        assert(n[j] == e[a] && n[k] == e[b]);
    }
    assert forall|j: int| 0 <= j < n.len() implies (#[trigger] n[j]).1.key() != e[at].1.key() by {
        let a = if j < at { j } else { j + 1 };
        assert(n[j] == e[a]);
        if a < at {
            assert(e[a].1.key() != e[at].1.key());
        } else {
            assert(e[at].1.key() != e[a].1.key());
        }
    }
}

/// An entry for a key that the index lacks leaves entries of different
/// keys.
pub proof fn lemma_with_item_keys_differ(e: Seq<(i64, Arc<DbRow>)>, moment: i64, row: Arc<DbRow>)
    requires
        moments_ascend(e),
        keys_differ(e),
        lacks_key(e, row.key()),
    ensures
        keys_differ(with_item(e, moment, row)),
{
    lemma_due_count(e, moment);
    let c = crate::expiration_index::due_count(e, moment);
    let n = with_item(e, moment, row);
    assert forall|j: int, k: int| 0 <= j < k < n.len() implies (#[trigger] n[j]).1.key() != (
    #[trigger] n[k]).1.key() by {
        let a = if j < c { j } else { j - 1 };
        let b = if k < c { k } else { k - 1 };
        if j != c {
            assert(n[j] == e[a]);
        }
        if k != c {
            assert(n[k] == e[b]);
        }
    }
}

/// Where the entry of the row kept under a key stands in the index.
pub proof fn lemma_place_of_kept_row(
    m: Seq<(Seq<u8>, Arc<DbRow>)>,
    e: Seq<(i64, Arc<DbRow>)>,
    row: Arc<DbRow>,
)
    requires
        row_in(m, row),
        row.expires is Some,
        rows_are_entries(m, e, None),
        keys_differ(e),
    ensures
        ({
            let p = place_of_same(e, row.expires.unwrap().unix_microseconds, row);
            0 <= p < e.len() && e[p] == index_entry(row).unwrap()
        }),
{
    let moment = row.expires.unwrap().unix_microseconds;
    let i = choose|i: int| 0 <= i < m.len() && (#[trigger] m[i]).1 == row;
    assert(e.contains(index_entry(m[i].1).unwrap()));
    let w = choose|j: int| 0 <= j < e.len() && e[j] == (moment, row);
    lemma_place_of_same_from(e, moment, row, 0);
    let p = place_of_same(e, moment, row);
    assert(row.same_as(&e[w].1));
    assert(p <= w);
    lemma_same_row_same_key(row, e[p].1);
    if p < w {
        assert(e[p].1.key() != e[w].1.key());
    }
}

/// An index that matches the rows lacks the keys that the rows lack, and
/// the keys of rows that do not expire.
pub proof fn lemma_index_lacks_key(
    m: Seq<(Seq<u8>, Arc<DbRow>)>,
    e: Seq<(i64, Arc<DbRow>)>,
    key: Seq<u8>,
)
    requires
        is_sorted(m),
        rows_are_keyed(m),
        entries_are_rows(m, e),
        value_at(m, key) matches Some(row) ==> row.expires is None,
    ensures
        lacks_key(e, key),
{
    assert forall|j: int| 0 <= j < e.len() implies (#[trigger] e[j]).1.key() != key by {
        if e[j].1.key() == key {
            lemma_row_in_is_kept(m, e[j].1);
        }
    }
}

/// Taking the entry of the row kept under a key out of the index leaves an
/// index of the other rows: no entry has that key any more.
pub proof fn lemma_index_without_row(
    m: Seq<(Seq<u8>, Arc<DbRow>)>,
    e: Seq<(i64, Arc<DbRow>)>,
    key: Seq<u8>,
)
    requires
        is_sorted(m),
        rows_are_keyed(m),
        moments_ascend(e),
        index_matches_rows(m, e),
    ensures
        ({
            let n = index_without_row(e, value_at(m, key));
            &&& moments_ascend(n)
            &&& lacks_key(n, key)
            &&& entries_are_rows(m, n)
            &&& rows_are_entries(m, n, Some(key))
            &&& keys_differ(n)
            &&& n.len() <= e.len()
        }),
{
    let n = index_without_row(e, value_at(m, key));
    lemma_kept_is_row_in(m, key);
    match value_at(m, key) {
        Some(old_row) => {
            if old_row.expires is Some {
                let moment = old_row.expires.unwrap().unix_microseconds;
                lemma_without_item(e, moment, old_row);
                lemma_place_of_kept_row(m, e, old_row);
                let p = place_of_same(e, moment, old_row);
                assert(n == e.remove(p));
                lemma_remove_keys_differ(e, p);
                assert forall|j: int| 0 <= j < n.len() implies index_entry((#[trigger] n[j]).1)
                    == Some(n[j]) && row_in(m, n[j].1) by {
                    let a = if j < p { j } else { j + 1 };
                    assert(n[j] == e[a]);
                }
                assert forall|i: int|
                    0 <= i < m.len() && (#[trigger] m[i]).1.expires is Some && Some(m[i].0)
                        != Some(key) implies n.contains(index_entry(m[i].1).unwrap()) by {
                    lemma_remove_entries(e, p, index_entry(m[i].1).unwrap());
                }
            } else {
                lemma_index_lacks_key(m, e, key);
            }
        },
        None => {
            lemma_index_lacks_key(m, e, key);
        },
    }
}

/// Putting a row into the rows and into an index that holds no entry of
/// its key gives rows with their index.
pub proof fn lemma_index_with_row(
    m: Seq<(Seq<u8>, Arc<DbRow>)>,
    n: Seq<(i64, Arc<DbRow>)>,
    row: Arc<DbRow>,
)
    requires
        is_sorted(m),
        rows_are_keyed(m),
        row.wf(),
        moments_ascend(n),
        lacks_key(n, row.key()),
        entries_are_rows(m, n),
        rows_are_entries(m, n, Some(row.key())),
        keys_differ(n),
    ensures
        is_sorted(put(m, row.key(), row)),
        rows_are_keyed(put(m, row.key(), row)),
        moments_ascend(index_with_row(n, row)),
        index_matches_rows(put(m, row.key(), row), index_with_row(n, row)),
{
    let key = row.key();
    lemma_put(m, key, row);
    lemma_put_keyed(m, row);
    let m2 = put(m, key, row);
    let e2 = index_with_row(n, row);
    if let Some(moment) = row.expires {
        lemma_with_item(n, moment.unix_microseconds, row);
        lemma_with_item_keys_differ(n, moment.unix_microseconds, row);
    }
    assert forall|j: int| 0 <= j < e2.len() implies index_entry((#[trigger] e2[j]).1) == Some(
        e2[j],
    ) && row_in(m2, e2[j].1) by {
        lemma_put_rows(m, row, e2[j].1);
        if let Some(moment) = row.expires {
            lemma_with_item_entries(n, moment.unix_microseconds, row, e2[j]);
            if e2[j] != (moment.unix_microseconds, row) {
                let b = choose|b: int| 0 <= b < n.len() && n[b] == e2[j];
                assert(index_entry(n[b].1) == Some(n[b]) && row_in(m, n[b].1));
                assert(n[b].1.key() != key);
            }
        } else {
            assert(n[j].1.key() != key);
        }
    }
    assert forall|a: int|
        0 <= a < m2.len() && (#[trigger] m2[a]).1.expires is Some implies e2.contains(
        index_entry(m2[a].1).unwrap(),
    ) by {
        lemma_put_rows(m, row, m2[a].1);
        let entry = index_entry(m2[a].1).unwrap();
        if let Some(moment) = row.expires {
            lemma_with_item_entries(n, moment.unix_microseconds, row, entry);
        }
        if m2[a].1 != row {
            let i = choose|i: int| 0 <= i < m.len() && (#[trigger] m[i]).1 == m2[a].1;
            assert(Some(m[i].0) != Some(key));
            assert(n.contains(index_entry(m[i].1).unwrap()));
        }
    }
}

/// Taking a key out of the rows, and its entry out of the index, gives
/// rows with their index.
pub proof fn lemma_rows_without_key(
    m: Seq<(Seq<u8>, Arc<DbRow>)>,
    e: Seq<(i64, Arc<DbRow>)>,
    key: Seq<u8>,
)
    requires
        is_sorted(m),
        rows_are_keyed(m),
        moments_ascend(e),
        index_matches_rows(m, e),
    ensures
        is_sorted(without(m, key)),
        rows_are_keyed(without(m, key)),
        moments_ascend(index_without_row(e, value_at(m, key))),
        index_matches_rows(without(m, key), index_without_row(e, value_at(m, key))),
{
    lemma_without(m, key);
    lemma_without_keyed(m, key);
    lemma_index_without_row(m, e, key);
    let m2 = without(m, key);
    let n = index_without_row(e, value_at(m, key));
    assert forall|j: int| 0 <= j < n.len() implies index_entry((#[trigger] n[j]).1) == Some(n[j])
        && row_in(m2, n[j].1) by {
        lemma_without_rows(m, key, n[j].1);
    }
    assert forall|a: int|
        0 <= a < m2.len() && (#[trigger] m2[a]).1.expires is Some implies n.contains(
        index_entry(m2[a].1).unwrap(),
    ) by {
        lemma_without_rows(m, key, m2[a].1);
        let i = choose|i: int| 0 <= i < m.len() && (#[trigger] m[i]).1 == m2[a].1;
        assert(Some(m[i].0) != Some(key));
    }
}

/// An index that matches the rows is not longer than the rows.
pub proof fn lemma_index_fits_rows(m: Seq<(Seq<u8>, Arc<DbRow>)>, e: Seq<(i64, Arc<DbRow>)>)
    requires
        is_sorted(m),
        rows_are_keyed(m),
        index_matches_rows(m, e),
    ensures
        e.len() <= m.len(),
{
    let keys = e.map_values(|entry: (i64, Arc<DbRow>)| entry.1.key());
    assert(keys.no_duplicates()) by {
        assert forall|i: int, j: int|
            0 <= i < keys.len() && 0 <= j < keys.len() && i != j implies keys[i] != keys[j] by {
            if i < j {
                assert(e[i].1.key() != e[j].1.key());
            } else {
                assert(e[j].1.key() != e[i].1.key());
            }
        }
    }
    assert forall|j: int| 0 <= j < keys.len() implies has_key(m, #[trigger] keys[j]) by {
        assert(row_in(m, e[j].1));
        lemma_row_in_is_kept(m, e[j].1);
    }
    crate::ordered_map::lemma_keys_fit(m, keys);
}

/// The rows that are due at an instant are the rows that expire at it or
/// before it, and they stand in the order of their instants.
pub proof fn lemma_due_rows(
    m: Seq<(Seq<u8>, Arc<DbRow>)>,
    e: Seq<(i64, Arc<DbRow>)>,
    now: i64,
)
    requires
        is_sorted(m),
        rows_are_keyed(m),
        moments_ascend(e),
        index_matches_rows(m, e),
    ensures
        forall|row: Arc<DbRow>| #[trigger]
            due_items(e, now).contains(row) <==> (row_in(m, row) && row.expires is Some
                && row.expires.unwrap().unix_microseconds <= now),
        forall|j: int, k: int|
            0 <= j < k < due_items(e, now).len() ==> (#[trigger] due_items(
                e,
                now,
            )[j]).expires.unwrap().unix_microseconds <= (#[trigger] due_items(
                e,
                now,
            )[k]).expires.unwrap().unix_microseconds,
        forall|j: int|
            0 <= j < due_items(e, now).len() ==> (#[trigger] due_items(e, now)[j]).expires
                is Some,
{
    lemma_due_count(e, now);
    let count = crate::expiration_index::due_count(e, now);
    let due = due_items(e, now);
    assert forall|j: int| 0 <= j < due.len() implies (#[trigger] due[j]) == e[j].1 && index_entry(
        due[j],
    ) == Some(e[j]) && row_in(m, due[j]) by {
        assert(e.take(count)[j] == e[j]);
    }
    assert forall|row: Arc<DbRow>| #[trigger]
        due.contains(row) <==> (row_in(m, row) && row.expires is Some
            && row.expires.unwrap().unix_microseconds <= now) by {
        if due.contains(row) {
            let j = choose|j: int| 0 <= j < due.len() && due[j] == row;
            assert(due[j] == e[j].1);
        }
        if row_in(m, row) && row.expires is Some && row.expires.unwrap().unix_microseconds
            <= now {
            let i = choose|i: int| 0 <= i < m.len() && (#[trigger] m[i]).1 == row;
            assert(e.contains(index_entry(m[i].1).unwrap()));
            let j = choose|j: int| 0 <= j < e.len() && e[j] == index_entry(row).unwrap();
            assert(j < count);
            assert(due[j] == row);
        }
    }
    assert forall|j: int, k: int| 0 <= j < k < due.len() implies (
    #[trigger] due[j]).expires.unwrap().unix_microseconds <= (
    #[trigger] due[k]).expires.unwrap().unix_microseconds by {
        assert(e[j].0 <= e[k].0);
    }
}

/// Each row that expires stands in the index under its instant, each
/// entry of the index is a row of the container that expires at the
/// entry's instant, and the index is not longer than the rows.
pub proof fn lemma_expiring_rows_are_indexed(container: DbRowsContainer)
    requires
        container.wf(),
    ensures
        forall|i: int|
            0 <= i < container.data@.len() && (#[trigger] container.data@[i]).1.expires is Some
                ==> container.index().contains(
                (
                    container.data@[i].1.expires.unwrap().unix_microseconds,
                    container.data@[i].1,
                ),
            ),
        forall|j: int|
            0 <= j < container.index().len() ==> container.row(
                (#[trigger] container.index()[j]).1.key(),
            ) == Some(container.index()[j].1) && container.index()[j].1.expires == Some(
                DateTimeAsMicroseconds { unix_microseconds: container.index()[j].0 },
            ),
        container.index().len() <= container.data@.len(),
{
    let m = container.data@;
    let e = container.index();
    assert forall|i: int| 0 <= i < m.len() && (#[trigger] m[i]).1.expires is Some implies e.contains(
        (m[i].1.expires.unwrap().unix_microseconds, m[i].1),
    ) by {
        assert(Some(m[i].0) != None::<Seq<u8>>);
    }
    assert forall|j: int| 0 <= j < e.len() implies container.row((#[trigger] e[j]).1.key())
        == Some(e[j].1) && e[j].1.expires == Some(
        DateTimeAsMicroseconds { unix_microseconds: e[j].0 },
    ) by {
        assert(row_in(m, e[j].1));
        lemma_row_in_is_kept(m, e[j].1);
    }
    lemma_index_fits_rows(m, e);
}

impl DbRowsContainer {
    /// The rows in the order of their keys.
    pub open spec fn rows(&self) -> Seq<Arc<DbRow>> {
        self.data@.map_values(|entry: (Seq<u8>, Arc<DbRow>)| entry.1)
    }

    /// The rows that expire, each with its instant, earliest first.
    pub open spec fn index(&self) -> Seq<(i64, Arc<DbRow>)> {
        self.rows_with_expiration_index@
    }

    /// The row kept under a key.
    pub open spec fn row(&self, key: Seq<u8>) -> Option<Arc<DbRow>> {
        value_at(self.data@, key)
    }

    /// The rows stand in the order of their keys, each under its own key,
    /// and the index holds exactly those that expire.
    pub open spec fn wf(&self) -> bool {
        &&& is_sorted(self.data@)
        &&& rows_are_keyed(self.data@)
        &&& self.rows_with_expiration_index.wf()
        &&& index_matches_rows(self.data@, self.index())
    }

    pub fn new() -> (r: Self)
        ensures
            r.wf(),
            r.data@.len() == 0,
            r.index().len() == 0,
    {
        DbRowsContainer {
            data: OrderedMap::new(),
            rows_with_expiration_index: ExpirationIndex::new(),
        }
    }

    pub fn len(&self) -> (r: usize)
        ensures
            r == self.data@.len(),
    {
        self.data.len()
    }

    pub fn rows_with_expiration_index_len(&self) -> (r: usize)
        requires
            self.wf(),
        ensures
            r == self.index().len(),
    {
        self.rows_with_expiration_index.len()
    }

    /// The rows that are due at `now`, earliest first; `None` where none
    /// is due.
    pub fn get_rows_to_expire(&self, now: DateTimeAsMicroseconds) -> (r: Option<
        Vec<&Arc<DbRow>>,
    >)
        requires
            self.wf(),
        ensures
            match r {
                Some(rows) => rows@.len() > 0 && rows@.map_values(|row: &Arc<DbRow>| *row)
                    == due_items(self.index(), now.unix_microseconds),
                None => due_items(self.index(), now.unix_microseconds).len() == 0,
            },
    {
        self.rows_with_expiration_index.get_items_to_expire(now)
    }

    /// Puts the row under its key, in place of the row that was there, and
    /// gives that one back. The index follows.
    pub fn insert(&mut self, db_row: Arc<DbRow>) -> (r: Option<Arc<DbRow>>)
        requires
            old(self).wf(),
            db_row.wf(),
        ensures
            final(self).wf(),
            r == old(self).row(db_row.key()),
            final(self).data@ == put(old(self).data@, db_row.key(), db_row),
            final(self).index() == index_with_row(index_without_row(old(self).index(), r), db_row),
    {
        proof {
            lemma_index_without_row(self.data@, self.index(), db_row.key());
            lemma_index_with_row(
                self.data@,
                index_without_row(self.index(), self.row(db_row.key())),
                db_row,
            );
        }
        let result = self.data.insert(db_row.row_key.clone(), share(&db_row));
        if let Some(removed_db_row) = &result {
            self.rows_with_expiration_index.remove(removed_db_row.expires, removed_db_row);
        }
        let expires = db_row.expires;
        let rows_now: usize = self.data.len();
        proof {
            // No more rows expire than there are, the new one among them.
            let left = index_without_row(old(self).index(), old(self).row(db_row.key()));
            lemma_index_fits_rows(self.data@, index_with_row(left, db_row));
            if let Some(moment) = expires {
                lemma_with_item(left, moment.unix_microseconds, db_row);
            }
        }
        self.rows_with_expiration_index.add(expires, db_row);
        result
    }

    /// Takes out the row kept under the key, and its entry in the index.
    pub fn remove(&mut self, row_key: &str) -> (r: Option<Arc<DbRow>>)
        requires
            old(self).wf(),
        ensures
            final(self).wf(),
            r == old(self).row(row_key.spec_bytes()),
            final(self).data@ == without(old(self).data@, row_key.spec_bytes()),
            final(self).index() == index_without_row(old(self).index(), r),
    {
        proof {
            lemma_rows_without_key(self.data@, self.index(), row_key.spec_bytes());
        }
        let result = self.data.remove(row_key);
        if let Some(removed_db_row) = &result {
            self.rows_with_expiration_index.remove(removed_db_row.expires, removed_db_row);
        }
        result
    }

    pub fn get(&self, row_key: &str) -> (r: Option<&Arc<DbRow>>)
        requires
            self.wf(),
        ensures
            match r {
                Some(row) => self.row(row_key.spec_bytes()) == Some(*row),
                None => self.row(row_key.spec_bytes()) is None,
            },
    {
        self.data.get(row_key)
    }

    pub fn has_db_row(&self, row_key: &str) -> (r: bool)
        requires
            self.wf(),
        ensures
            r == self.row(row_key.spec_bytes()).is_some(),
    {
        self.data.contains_key(row_key)
    }

    /// All rows, in the order of their keys.
    pub fn get_all(&self) -> (r: Vec<&Arc<DbRow>>)
        ensures
            r@.map_values(|row: &Arc<DbRow>| *row) == self.rows(),
    {
        let mut result: Vec<&Arc<DbRow>> = Vec::with_capacity(self.data.len());
        let mut at: usize = 0;
        while at < self.data.len()
            invariant
                at <= self.data@.len(),
                result@.len() == at,
                forall|j: int| 0 <= j < at ==> *(#[trigger] result@[j]) == self.data@[j].1,
            decreases self.data@.len() - at,
        {
            result.push(self.data.value(at));
            at = at + 1;
        }
        assert(result@.map_values(|row: &Arc<DbRow>| *row) =~= self.rows());
        result
    }

    /// How many rows `get_highest_row_and_below` gives: those whose key
    /// does not stand behind `key`, but no more than `limit`.
    pub open spec fn below_count(&self, key: Seq<u8>, limit: Option<usize>) -> int {
        let upto = rank(self.data@, key) + if has_key(self.data@, key) {
            1int
        } else {
            0int
        };
        match limit {
            Some(most) => if most < upto {
                most as int
            } else {
                upto
            },
            None => upto,
        }
    }

    /// The rows whose key does not stand behind `row_key`, in the order of
    /// their keys and no more than `limit`; `None` where there is none.
    pub fn get_highest_row_and_below(&self, row_key: &String, limit: Option<usize>) -> (r: Option<
        Vec<&Arc<DbRow>>,
    >)
        requires
            self.wf(),
        ensures
            match r {
                Some(rows) => rows@.len() > 0 && rows@.map_values(|row: &Arc<DbRow>| *row)
                    == self.rows().take(self.below_count(encode_utf8(row_key@), limit)),
                None => self.below_count(encode_utf8(row_key@), limit) == 0,
            },
    {
        let (at, found) = self.data.find(row_key.as_str());
        let len: usize = self.data.len();
        let upto: usize = if found {
            assert(at < len);
            at + 1
        } else {
            at
        };
        let count: usize = match limit {
            Some(most) => if most < upto {
                most
            } else {
                upto
            },
            None => upto,
        };
        if count == 0 {
            return None;
        }
        let mut result: Vec<&Arc<DbRow>> = Vec::with_capacity(count);
        let mut i: usize = 0;
        while i < count
            invariant
                i <= count <= self.data@.len(),
                result@.len() == i,
                forall|j: int| 0 <= j < i ==> *(#[trigger] result@[j]) == self.data@[j].1,
            decreases count - i,
        {
            result.push(self.data.value(i));
            i = i + 1;
        }
        assert(result@.map_values(|row: &Arc<DbRow>| *row) =~= self.rows().take(count as int));
        Some(result)
    }

    /// Gives the row under `row_key` another expiration: a row with the
    /// bytes written anew takes its place, and the row that was there is
    /// given back. Nothing is done, and `None` given, where no row stands
    /// under the key or the row has that expiration already.
    pub fn update_expiration_time(
        &mut self,
        row_key: &str,
        expiration_time: Option<DateTimeAsMicroseconds>,
    ) -> (r: Option<Arc<DbRow>>)
        requires
            old(self).wf(),
            expiration_time matches Some(moment) ==> moment.has_text(),
        ensures
            final(self).wf(),
            match old(self).row(row_key.spec_bytes()) {
                Some(row) if row.expires != expiration_time => {
                    &&& r == Some(row)
                    &&& final(self).row(row_key.spec_bytes()) matches Some(new_row)
                        && is_with_expiration(*new_row, *row, expiration_time)
                        && final(self).data@ == put(
                        old(self).data@,
                        row_key.spec_bytes(),
                        new_row,
                    ) && final(self).index() == index_with_row(
                        index_without_row(old(self).index(), Some(row)),
                        new_row,
                    )
                },
                _ => {
                    &&& r is None
                    &&& final(self).data@ == old(self).data@
                    &&& final(self).index() == old(self).index()
                },
            },
    {
        let current = match self.get(row_key) {
            Some(db_row) => db_row.expires,
            None => {
                return None;
            },
        };
        let unchanged = match (current, expiration_time) {
            (None, None) => true,
            (Some(a), Some(b)) => a.unix_microseconds == b.unix_microseconds,
            _ => false,
        };
        if unchanged {
            return None;
        }
        proof {
            lemma_kept_is_row_in(self.data@, row_key.spec_bytes());
        }
        let removed_db_row = match self.remove(row_key) {
            Some(row) => row,
            None => {
                return None;
            },
        };
        let new_db_row = Arc::new(removed_db_row.create_with_new_expiration_time(expiration_time));
        proof {
            lemma_without(old(self).data@, row_key.spec_bytes());
            lemma_put_after_without(old(self).data@, row_key.spec_bytes(), new_db_row);
            lemma_put(old(self).data@, row_key.spec_bytes(), new_db_row);
            lemma_index_lacks_key_after_without(
                old(self).data@,
                old(self).index(),
                row_key.spec_bytes(),
            );
        }
        self.insert(new_db_row);
        Some(removed_db_row)
    }

    /// The instants at which the rows were last read, in the order of the
    /// rows' keys. Each is what it was found to be when it was looked at.
    pub(crate) fn last_read_moments(&self) -> (r: Vec<i64>)
        ensures
            r@.len() == self.data@.len(),
    {
        let mut stamps: Vec<i64> = Vec::with_capacity(self.data.len());
        let mut at: usize = 0;
        while at < self.data.len()
            invariant
                at <= self.data@.len(),
                stamps@.len() == at,
            decreases self.data@.len() - at,
        {
            stamps.push(self.data.value(at).last_read_access.get_unix_microseconds());
            at = at + 1;
        }
        stamps
    }

    /// The rows at the places `picks`.
    pub open spec fn rows_at(&self, picks: Seq<int>) -> Seq<Arc<DbRow>> {
        picks.map_values(|place: int| self.data@[place].1)
    }

    /// The rows that have to go so that `max_rows_amount` stay: those that
    /// were read longest ago, the one read longest ago first; of rows read
    /// at one instant the one with the lower key comes first. `None` where
    /// no more rows are kept than may stay.
    pub fn get_rows_to_gc_by_max_amount(&self, max_rows_amount: usize) -> (r: Option<
        Vec<&Arc<DbRow>>,
    >)
        ensures
            match r {
                Some(rows) => self.data@.len() > max_rows_amount && exists|
                    stamps: Seq<i64>,
                    picks: Seq<int>,
                |
                    stamps.len() == self.data@.len() && picks.len() == self.data@.len()
                        - max_rows_amount && are_oldest(stamps, picks) && #[trigger] self.rows_at(
                        picks,
                    ) == rows@.map_values(|row: &Arc<DbRow>| *row) && #[trigger] stamps.len()
                        == self.data@.len(),
                None => self.data@.len() <= max_rows_amount,
            },
    {
        if self.data.len() <= max_rows_amount {
            return None;
        }
        let stamps = self.last_read_moments();
        let picks = oldest(&stamps, self.data.len() - max_rows_amount);
        let mut result: Vec<&Arc<DbRow>> = Vec::with_capacity(picks.len());
        let mut at: usize = 0;
        while at < picks.len()
            invariant
                at <= picks@.len(),
                result@.len() == at,
                stamps@.len() == self.data@.len(),
                are_oldest(stamps@, places_of(picks@)),
                forall|j: int|
                    0 <= j < at ==> *(#[trigger] result@[j]) == self.data@[places_of(
                        picks@,
                    )[j]].1,
            decreases picks@.len() - at,
        {
            assert(0 <= places_of(picks@)[at as int] < stamps@.len());
            result.push(self.data.value(picks[at]));
            at = at + 1;
        }
        assert(self.rows_at(places_of(picks@)) =~= result@.map_values(|row: &Arc<DbRow>| *row));
        Some(result)
    }
}

/// An index that holds no entry of a row's key is as it was once the
/// entry of the row was put in and taken out again.
pub proof fn lemma_index_without_row_after_with(e: Seq<(i64, Arc<DbRow>)>, row: Arc<DbRow>)
    requires
        moments_ascend(e),
        lacks_key(e, row.key()),
    ensures
        index_without_row(index_with_row(e, row), Some(row)) == e,
{
    if let Some(expires) = row.expires {
        let moment = expires.unix_microseconds;
        lemma_due_count(e, moment);
        let c = due_count(e, moment);
        let n = with_item(e, moment, row);
        assert(n[c] == (moment, row));
        lemma_place_of_same_from(n, moment, row, 0);
        let p = place_of_same(n, moment, row);
        if p < c {
            assert(n[p] == e[p]);
            lemma_same_row_same_key(row, e[p].1);
        }
        assert(p == c);
        assert(n.remove(c) =~= e);
    }
}

/// After a key was taken out of the rows and the index, the index lacks
/// the key.
pub proof fn lemma_index_lacks_key_after_without(
    m: Seq<(Seq<u8>, Arc<DbRow>)>,
    e: Seq<(i64, Arc<DbRow>)>,
    key: Seq<u8>,
)
    requires
        is_sorted(m),
        rows_are_keyed(m),
        moments_ascend(e),
        index_matches_rows(m, e),
    ensures
        lacks_key(index_without_row(e, value_at(m, key)), key),
{
    lemma_index_without_row(m, e, key);
}

} // verus!
