use vstd::prelude::*;
use vstd::string::StringSliceAdditionalSpecFns;
use vstd::utf8::encode_utf8;
use crate::date_time::DateTimeAsMicroseconds;
use crate::db::db_partition::DbPartition;
use crate::expiration_index::{
    due_count, due_items, lemma_due_count, lemma_place_of_same_from, lemma_with_item,
    lemma_without_item, moments_ascend, place_of_same, with_item, without_item, ExpirationIndex,
    ExpirationItemsAreSame,
};
use crate::lru::{are_oldest, oldest, places_of};
use crate::ordered_map::{
    has_key, is_sorted, lemma_put, lemma_put_other, lemma_put_places, lemma_rank,
    lemma_value_at_place, lemma_without, lemma_without_other, lemma_without_places, put, rank,
    value_at, without, OrderedMap,
};
use crate::text::lemma_same_bytes_same_text;

verus! {

/// The partitions of a table in the order of their keys, and beside them
/// the keys of the partitions that expire, in the order of their instants.
pub struct DbPartitionsContainer {
    pub partitions: OrderedMap<DbPartition>,
    pub partitions_to_expire_index: ExpirationIndex<String>,
}

/// Each partition is well-formed.
pub open spec fn partitions_are_wf(m: Seq<(Seq<u8>, DbPartition)>) -> bool {
    forall|i: int| 0 <= i < m.len() ==> (#[trigger] m[i]).1.wf()
}

/// The instant of an expiration, where there is one.
pub open spec fn moment_of(expires: Option<DateTimeAsMicroseconds>) -> Option<i64> {
    match expires {
        Some(moment) => Some(moment.unix_microseconds),
        None => None,
    }
}

/// Whether a partition stands under `key` and expires at `moment`.
pub open spec fn expires_at(m: Seq<(Seq<u8>, DbPartition)>, key: Seq<u8>, moment: i64) -> bool {
    exists|i: int|
        0 <= i < m.len() && (#[trigger] m[i]).0 == key && moment_of(m[i].1.expires) == Some(moment)
}

/// Whether the index holds `key` under `moment`.
pub open spec fn has_entry(e: Seq<(i64, String)>, moment: i64, key: Seq<u8>) -> bool {
    exists|j: int| 0 <= j < e.len() && (#[trigger] e[j]).0 == moment && encode_utf8(e[j].1@) == key
}

/// Each entry of the index names a partition that expires at the entry's
/// instant.
pub open spec fn entries_are_partitions(
    m: Seq<(Seq<u8>, DbPartition)>,
    e: Seq<(i64, String)>,
) -> bool {
    forall|j: int| 0 <= j < e.len() ==> expires_at(m, encode_utf8((#[trigger] e[j]).1@), e[j].0)
}

/// Each partition that expires, but for the one under `except`, has its
/// entry in the index.
pub open spec fn partitions_are_entries(
    m: Seq<(Seq<u8>, DbPartition)>,
    e: Seq<(i64, String)>,
    except: Option<Seq<u8>>,
) -> bool {
    forall|i: int|
        0 <= i < m.len() && (#[trigger] m[i]).1.expires is Some && Some(m[i].0) != except
            ==> has_entry(e, moment_of(m[i].1.expires).unwrap(), m[i].0)
}

/// No two entries of the index name one key.
pub open spec fn names_differ(e: Seq<(i64, String)>) -> bool {
    forall|j: int, k: int|
        0 <= j < k < e.len() ==> encode_utf8((#[trigger] e[j]).1@) != encode_utf8(
            (#[trigger] e[k]).1@,
        )
}

/// No entry of the index names that key.
pub open spec fn lacks_name(e: Seq<(i64, String)>, key: Seq<u8>) -> bool {
    forall|j: int| 0 <= j < e.len() ==> encode_utf8((#[trigger] e[j]).1@) != key
}

/// The index names the partitions that expire, each once and under its
/// instant, and nothing else.
pub open spec fn index_matches_partitions(
    m: Seq<(Seq<u8>, DbPartition)>,
    e: Seq<(i64, String)>,
) -> bool {
    &&& entries_are_partitions(m, e)
    &&& partitions_are_entries(m, e, None)
    &&& names_differ(e)
}

/// The index without the entry of a partition that expired at `expires`.
pub open spec fn index_without_name(
    e: Seq<(i64, String)>,
    expires: Option<DateTimeAsMicroseconds>,
    name: String,
) -> Seq<(i64, String)> {
    match expires {
        Some(moment) => without_item(e, moment.unix_microseconds, name),
        None => e,
    }
}

/// The index with an entry for a partition that expires at `expires`.
pub open spec fn index_with_name(
    e: Seq<(i64, String)>,
    expires: Option<DateTimeAsMicroseconds>,
    name: String,
) -> Seq<(i64, String)> {
    match expires {
        Some(moment) => with_item(e, moment.unix_microseconds, name),
        None => e,
    }
}

/// The expiration of the partition kept under a key.
pub open spec fn expiration_of(partition: Option<DbPartition>) -> Option<DateTimeAsMicroseconds> {
    match partition {
        Some(p) => p.expires,
        None => None,
    }
}

/// Names are the same for the index where their bytes are the same.
pub proof fn lemma_same_name_same_key(a: String, b: String)
    ensures
        a.same_as(&b) <==> encode_utf8(a@) == encode_utf8(b@),
{
    if encode_utf8(a@) == encode_utf8(b@) {
        lemma_same_bytes_same_text(a@, b@);
    }
}

/// The partition under a key expires at an instant where `expires_at`
/// says so.
pub proof fn lemma_expires_at_is_kept(m: Seq<(Seq<u8>, DbPartition)>, key: Seq<u8>, moment: i64)
    requires
        is_sorted(m),
    ensures
        expires_at(m, key, moment) <==> moment_of(expiration_of(value_at(m, key))) == Some(
            moment,
        ),
{
    lemma_rank(m, key);
    if expires_at(m, key, moment) {
        let i = choose|i: int|
            0 <= i < m.len() && (#[trigger] m[i]).0 == key && moment_of(m[i].1.expires) == Some(
                moment,
            );
        lemma_value_at_place(m, i);
    }
    if moment_of(expiration_of(value_at(m, key))) == Some(moment) {
        assert(m[rank(m, key)].0 == key);
    }
}

/// What `has_entry` is after `with_item`.
pub proof fn lemma_with_item_names(
    e: Seq<(i64, String)>,
    moment: i64,
    name: String,
    other_moment: i64,
    other: Seq<u8>,
)
    requires
        moments_ascend(e),
    ensures
        has_entry(with_item(e, moment, name), other_moment, other) <==> ((other_moment == moment
            && other == encode_utf8(name@)) || has_entry(e, other_moment, other)),
{
    lemma_due_count(e, moment);
    let c = due_count(e, moment);
    let n = with_item(e, moment, name);
    if has_entry(n, other_moment, other) {
        let j = choose|j: int|
            0 <= j < n.len() && (#[trigger] n[j]).0 == other_moment && encode_utf8(n[j].1@)
                == other;
        if j < c {
            assert(e[j] == n[j]);
        } else if j > c {
            assert(e[j - 1] == n[j]);
        }
    }
    if other_moment == moment && other == encode_utf8(name@) {
        assert(n[c] == (moment, name));
    }
    if has_entry(e, other_moment, other) {
        let j = choose|j: int|
            0 <= j < e.len() && (#[trigger] e[j]).0 == other_moment && encode_utf8(e[j].1@)
                == other;
        if j < c {
            assert(n[j] == e[j]);
        } else {
            assert(n[j + 1] == e[j]);
        }
    }
}

/// What `has_entry` is after one entry was taken out.
pub proof fn lemma_remove_names(e: Seq<(i64, String)>, at: int, moment: i64, other: Seq<u8>)
    requires
        0 <= at < e.len(),
        names_differ(e),
    ensures
        has_entry(e.remove(at), moment, other) <==> (has_entry(e, moment, other) && other
            != encode_utf8(e[at].1@)),
{
    let n = e.remove(at);
    if has_entry(n, moment, other) {
        let j = choose|j: int|
            0 <= j < n.len() && (#[trigger] n[j]).0 == moment && encode_utf8(n[j].1@) == other;
        let a = if j < at { j } else { j + 1 };
        assert(e[a] == n[j]);
        if a < at {
            assert(encode_utf8(e[a].1@) != encode_utf8(e[at].1@));
        } else {
            assert(encode_utf8(e[at].1@) != encode_utf8(e[a].1@));
        }
    }
    if has_entry(e, moment, other) && other != encode_utf8(e[at].1@) {
        let j = choose|j: int|
            0 <= j < e.len() && (#[trigger] e[j]).0 == moment && encode_utf8(e[j].1@) == other;
        let a = if j < at { j } else { j - 1 };
        assert(n[a] == e[j]);
    }
}

/// Taking an entry out leaves entries of different names.
pub proof fn lemma_remove_names_differ(e: Seq<(i64, String)>, at: int)
    requires
        0 <= at < e.len(),
        names_differ(e),
    ensures
        names_differ(e.remove(at)),
        lacks_name(e.remove(at), encode_utf8(e[at].1@)),
{
    let n = e.remove(at);
    assert forall|j: int, k: int| 0 <= j < k < n.len() implies encode_utf8(
        (#[trigger] n[j]).1@,
    ) != encode_utf8((#[trigger] n[k]).1@) by {
        let a = if j < at { j } else { j + 1 };
        let b = if k < at { k } else { k + 1 };
        assert(n[j] == e[a] && n[k] == e[b]);
    }
    assert forall|j: int| 0 <= j < n.len() implies encode_utf8((#[trigger] n[j]).1@)
        != encode_utf8(e[at].1@) by {
        let a = if j < at { j } else { j + 1 };
        assert(n[j] == e[a]);
        if a < at {
            assert(encode_utf8(e[a].1@) != encode_utf8(e[at].1@));
        } else {
            assert(encode_utf8(e[at].1@) != encode_utf8(e[a].1@));
        }
    }
}

/// An entry for a name that the index lacks leaves entries of different
/// names.
pub proof fn lemma_with_item_names_differ(e: Seq<(i64, String)>, moment: i64, name: String)
    requires
        moments_ascend(e),
        names_differ(e),
        lacks_name(e, encode_utf8(name@)),
    ensures
        names_differ(with_item(e, moment, name)),
{
    lemma_due_count(e, moment);
    let c = due_count(e, moment);
    let n = with_item(e, moment, name);
    assert forall|j: int, k: int| 0 <= j < k < n.len() implies encode_utf8(
        (#[trigger] n[j]).1@,
    ) != encode_utf8((#[trigger] n[k]).1@) by {
        let a = if j < c { j } else { j - 1 };
        let b = if k < c { k } else { k - 1 };
        if j != c {
            assert(n[j] == e[a]);
        }
        if k != c {
            assert(n[k] == e[b]);
        }
    }
}

/// Taking the entry of the partition kept under a key out of the index
/// leaves an index of the other partitions.
pub proof fn lemma_index_without_name(
    m: Seq<(Seq<u8>, DbPartition)>,
    e: Seq<(i64, String)>,
    name: String,
)
    requires
        is_sorted(m),
        moments_ascend(e),
        index_matches_partitions(m, e),
    ensures
        ({
            let key = encode_utf8(name@);
            let n = index_without_name(e, expiration_of(value_at(m, key)), name);
            &&& moments_ascend(n)
            &&& lacks_name(n, key)
            &&& entries_are_partitions(m, n)
            &&& partitions_are_entries(m, n, Some(key))
            &&& names_differ(n)
        }),
{
    let key = encode_utf8(name@);
    let expires = expiration_of(value_at(m, key));
    let n = index_without_name(e, expires, name);
    lemma_rank(m, key);
    match expires {
        Some(moment) => {
            let t = moment.unix_microseconds;
            lemma_without_item(e, t, name);
            lemma_place_of_same_from(e, t, name, 0);
            let p = place_of_same(e, t, name);
            let r = rank(m, key);
            assert(m[r].1.expires is Some && Some(m[r].0) != None::<Seq<u8>>);
            assert(has_entry(e, t, key));
            let w = choose|j: int|
                0 <= j < e.len() && (#[trigger] e[j]).0 == t && encode_utf8(e[j].1@) == key;
            lemma_same_name_same_key(name, e[w].1);
            assert(p <= w);
            lemma_same_name_same_key(name, e[p].1);
            assert(n == e.remove(p));
            lemma_remove_names_differ(e, p);
            assert forall|j: int| 0 <= j < n.len() implies expires_at(
                m,
                encode_utf8((#[trigger] n[j]).1@),
                n[j].0,
            ) by {
                let a = if j < p { j } else { j + 1 };
                assert(n[j] == e[a]);
            }
            assert forall|i: int|
                0 <= i < m.len() && (#[trigger] m[i]).1.expires is Some && Some(m[i].0) != Some(
                    key,
                ) implies has_entry(n, moment_of(m[i].1.expires).unwrap(), m[i].0) by {
                lemma_remove_names(e, p, moment_of(m[i].1.expires).unwrap(), m[i].0);
            }
        },
        None => {
            assert forall|j: int| 0 <= j < e.len() implies encode_utf8((#[trigger] e[j]).1@)
                != key by {
                if encode_utf8(e[j].1@) == key {
                    lemma_expires_at_is_kept(m, key, e[j].0);
                }
            }
        },
    }
}

/// Putting a partition in, and its name into an index that lacks it,
/// gives partitions with their index.
pub proof fn lemma_index_with_name(
    m: Seq<(Seq<u8>, DbPartition)>,
    n: Seq<(i64, String)>,
    name: String,
    partition: DbPartition,
)
    requires
        is_sorted(m),
        moments_ascend(n),
        lacks_name(n, encode_utf8(name@)),
        entries_are_partitions(m, n),
        partitions_are_entries(m, n, Some(encode_utf8(name@))),
        names_differ(n),
    ensures
        is_sorted(put(m, encode_utf8(name@), partition)),
        moments_ascend(index_with_name(n, partition.expires, name)),
        index_matches_partitions(
            put(m, encode_utf8(name@), partition),
            index_with_name(n, partition.expires, name),
        ),
{
    let key = encode_utf8(name@);
    lemma_put(m, key, partition);
    let m2 = put(m, key, partition);
    let e2 = index_with_name(n, partition.expires, name);
    if let Some(moment) = partition.expires {
        lemma_with_item(n, moment.unix_microseconds, name);
        lemma_with_item_names_differ(n, moment.unix_microseconds, name);
    }
    assert forall|j: int| 0 <= j < e2.len() implies expires_at(
        m2,
        encode_utf8((#[trigger] e2[j]).1@),
        e2[j].0,
    ) by {
        let other = encode_utf8(e2[j].1@);
        lemma_expires_at_is_kept(m2, other, e2[j].0);
        if other != key {
            lemma_put_other(m, key, partition, other);
            lemma_expires_at_is_kept(m, other, e2[j].0);
            if let Some(moment) = partition.expires {
                lemma_due_count(n, moment.unix_microseconds);
                let c = due_count(n, moment.unix_microseconds);
                let b = if j < c { j } else { j - 1 };
                assert(e2[j] == n[b]);
            }
        } else {
            if let Some(moment) = partition.expires {
                lemma_due_count(n, moment.unix_microseconds);
                let c = due_count(n, moment.unix_microseconds);
                if j != c {
                    let b = if j < c { j } else { j - 1 };
                    assert(e2[j] == n[b]);
                }
            } else {
                assert(encode_utf8(n[j].1@) != key);
            }
        }
    }
    assert forall|a: int|
        0 <= a < m2.len() && (#[trigger] m2[a]).1.expires is Some implies has_entry(
        e2,
        moment_of(m2[a].1.expires).unwrap(),
        m2[a].0,
    ) by {
        let t = moment_of(m2[a].1.expires).unwrap();
        lemma_value_at_place(m2, a);
        if let Some(moment) = partition.expires {
            lemma_with_item_names(n, moment.unix_microseconds, name, t, m2[a].0);
        }
        if m2[a].0 != key {
            lemma_put_other(m, key, partition, m2[a].0);
            lemma_rank(m, m2[a].0);
            let i = rank(m, m2[a].0);
            assert(m[i].1.expires is Some && Some(m[i].0) != Some(key));
        }
    }
}

/// Taking a partition out, and its name out of the index, gives
/// partitions with their index.
pub proof fn lemma_partitions_without_name(
    m: Seq<(Seq<u8>, DbPartition)>,
    e: Seq<(i64, String)>,
    name: String,
)
    requires
        is_sorted(m),
        moments_ascend(e),
        index_matches_partitions(m, e),
    ensures
        ({
            let key = encode_utf8(name@);
            &&& is_sorted(without(m, key))
            &&& moments_ascend(index_without_name(e, expiration_of(value_at(m, key)), name))
            &&& index_matches_partitions(
                without(m, key),
                index_without_name(e, expiration_of(value_at(m, key)), name),
            )
        }),
{
    let key = encode_utf8(name@);
    lemma_without(m, key);
    lemma_index_without_name(m, e, name);
    let m2 = without(m, key);
    let n = index_without_name(e, expiration_of(value_at(m, key)), name);
    assert forall|j: int| 0 <= j < n.len() implies expires_at(
        m2,
        encode_utf8((#[trigger] n[j]).1@),
        n[j].0,
    ) by {
        let other = encode_utf8(n[j].1@);
        lemma_without_other(m, key, other);
        lemma_expires_at_is_kept(m, other, n[j].0);
        lemma_expires_at_is_kept(m2, other, n[j].0);
    }
    assert forall|a: int|
        0 <= a < m2.len() && (#[trigger] m2[a]).1.expires is Some implies has_entry(
        n,
        moment_of(m2[a].1.expires).unwrap(),
        m2[a].0,
    ) by {
        lemma_value_at_place(m2, a);
        lemma_without_other(m, key, m2[a].0);
        lemma_rank(m, m2[a].0);
        let i = rank(m, m2[a].0);
        assert(m[i].1.expires is Some && Some(m[i].0) != Some(key));
    }
}

/// The well-formed partitions stay so where one is put in.
pub proof fn lemma_put_partitions_wf(
    m: Seq<(Seq<u8>, DbPartition)>,
    key: Seq<u8>,
    partition: DbPartition,
)
    requires
        is_sorted(m),
        partitions_are_wf(m),
        partition.wf(),
    ensures
        partitions_are_wf(put(m, key, partition)),
{
    lemma_put_places(m, key, partition);
    let r = rank(m, key);
    let m2 = put(m, key, partition);
    assert forall|a: int| 0 <= a < m2.len() implies (#[trigger] m2[a]).1.wf() by {
        if a < r {
            assert(m2[a] == m[a]);
        } else if a == r {
        } else if has_key(m, key) {
            assert(m2[a] == m[a]);
        } else {
            assert(m2[a] == m[a - 1]);
        }
    }
}

/// The well-formed partitions stay so where one is taken out.
pub proof fn lemma_without_partitions_wf(m: Seq<(Seq<u8>, DbPartition)>, key: Seq<u8>)
    requires
        is_sorted(m),
        partitions_are_wf(m),
    ensures
        partitions_are_wf(without(m, key)),
        value_at(m, key) matches Some(partition) ==> partition.wf(),
{
    lemma_rank(m, key);
    let r = rank(m, key);
    let m2 = without(m, key);
    if has_key(m, key) {
        lemma_without_places(m, key);
        assert forall|a: int| 0 <= a < m2.len() implies (#[trigger] m2[a]).1.wf() by {
            if a < r {
                assert(m2[a] == m[a]);
            } else {
                assert(m2[a] == m[a + 1]);
            }
        }
    }
}

/// A partition that is changed where it stands, and expires as before,
/// leaves partitions with their index.
pub proof fn lemma_changed_partition(
    m: Seq<(Seq<u8>, DbPartition)>,
    e: Seq<(i64, String)>,
    at: int,
    partition: DbPartition,
)
    requires
        0 <= at < m.len(),
        is_sorted(m),
        partitions_are_wf(m),
        index_matches_partitions(m, e),
        partition.wf(),
        partition.expires == m[at].1.expires,
    ensures
        is_sorted(m.update(at, (m[at].0, partition))),
        partitions_are_wf(m.update(at, (m[at].0, partition))),
        index_matches_partitions(m.update(at, (m[at].0, partition)), e),
        m.update(at, (m[at].0, partition)) == put(m, m[at].0, partition),
{
    let m2 = m.update(at, (m[at].0, partition));
    lemma_value_at_place(m, at);
    lemma_put(m, m[at].0, partition);
    assert forall|j: int| 0 <= j < e.len() implies expires_at(
        m2,
        encode_utf8((#[trigger] e[j]).1@),
        e[j].0,
    ) by {
        let i = choose|i: int|
            0 <= i < m.len() && (#[trigger] m[i]).0 == encode_utf8(e[j].1@) && moment_of(
                m[i].1.expires,
            ) == Some(e[j].0);
        assert(m2[i].0 == m[i].0 && m2[i].1.expires == m[i].1.expires);
    }
    assert forall|i: int| 0 <= i < m2.len() && (#[trigger] m2[i]).1.expires is Some implies has_entry(
        e,
        moment_of(m2[i].1.expires).unwrap(),
        m2[i].0,
    ) by {
        assert(m[i].1.expires is Some && Some(m[i].0) != None::<Seq<u8>>);
    }
    assert forall|a: int| 0 <= a < m2.len() implies (#[trigger] m2[a]).1.wf() by {
        if a != at {
            assert(m2[a] == m[a]);
        }
    }
}

/// An index that matches the partitions is not longer than the
/// partitions.
pub proof fn lemma_index_fits_partitions(m: Seq<(Seq<u8>, DbPartition)>, e: Seq<(i64, String)>)
    requires
        is_sorted(m),
        index_matches_partitions(m, e),
    ensures
        e.len() <= m.len(),
{
    let keys = e.map_values(|entry: (i64, String)| encode_utf8(entry.1@));
    assert(keys.no_duplicates()) by {
        assert forall|i: int, j: int|
            0 <= i < keys.len() && 0 <= j < keys.len() && i != j implies keys[i] != keys[j] by {
            if i < j {
                assert(encode_utf8(e[i].1@) != encode_utf8(e[j].1@));
            } else {
                assert(encode_utf8(e[j].1@) != encode_utf8(e[i].1@));
            }
        }
    }
    assert forall|j: int| 0 <= j < keys.len() implies has_key(m, #[trigger] keys[j]) by {
        assert(expires_at(m, encode_utf8(e[j].1@), e[j].0));
        lemma_expires_at_is_kept(m, keys[j], e[j].0);
    }
    crate::ordered_map::lemma_keys_fit(m, keys);
}

/// Each partition that expires stands in the index under its instant, and
/// each entry of the index names a partition that expires at the entry's
/// instant.
pub proof fn lemma_expiring_partitions_are_indexed(container: DbPartitionsContainer)
    requires
        container.wf(),
    ensures
        forall|i: int|
            0 <= i < container.partitions@.len() && (
            #[trigger] container.partitions@[i]).1.expires is Some ==> has_entry(
                container.index(),
                container.partitions@[i].1.expires.unwrap().unix_microseconds,
                container.partitions@[i].0,
            ),
        forall|j: int|
            0 <= j < container.index().len() ==> moment_of(
                expiration_of(
                    container.partition(encode_utf8((#[trigger] container.index()[j]).1@)),
                ),
            ) == Some(container.index()[j].0),
        container.index().len() <= container.partitions@.len(),
{
    let m = container.partitions@;
    let e = container.index();
    assert forall|i: int| 0 <= i < m.len() && (#[trigger] m[i]).1.expires is Some implies has_entry(
        e,
        m[i].1.expires.unwrap().unix_microseconds,
        m[i].0,
    ) by {
        assert(Some(m[i].0) != None::<Seq<u8>>);
    }
    assert forall|j: int| 0 <= j < e.len() implies moment_of(
        expiration_of(container.partition(encode_utf8((#[trigger] e[j]).1@))),
    ) == Some(e[j].0) by {
        lemma_expires_at_is_kept(m, encode_utf8(e[j].1@), e[j].0);
    }
    lemma_index_fits_partitions(m, e);
}

impl DbPartitionsContainer {
    /// The keys of the partitions that expire, each with its instant,
    /// earliest first.
    pub open spec fn index(&self) -> Seq<(i64, String)> {
        self.partitions_to_expire_index@
    }

    /// The partition kept under a key.
    pub open spec fn partition(&self, key: Seq<u8>) -> Option<DbPartition> {
        value_at(self.partitions@, key)
    }

    /// The partitions stand in the order of their keys, each is
    /// well-formed, and the index names exactly those that expire.
    pub open spec fn wf(&self) -> bool {
        &&& is_sorted(self.partitions@)
        &&& partitions_are_wf(self.partitions@)
        &&& self.partitions_to_expire_index.wf()
        &&& index_matches_partitions(self.partitions@, self.index())
    }

    pub fn new() -> (r: Self)
        ensures
            r.wf(),
            r.partitions@.len() == 0,
            r.index().len() == 0,
    {
        DbPartitionsContainer {
            partitions: OrderedMap::new(),
            partitions_to_expire_index: ExpirationIndex::new(),
        }
    }

    pub fn len(&self) -> (r: usize)
        ensures
            r == self.partitions@.len(),
    {
        self.partitions.len()
    }

    /// All partitions, in the order of their keys.
    pub fn get_partitions(&self) -> (r: Vec<&DbPartition>)
        ensures
            r@.len() == self.partitions@.len(),
            forall|i: int| 0 <= i < r@.len() ==> *(#[trigger] r@[i]) == self.partitions@[i].1,
    {
        let mut result: Vec<&DbPartition> = Vec::with_capacity(self.partitions.len());
        let mut at: usize = 0;
        while at < self.partitions.len()
            invariant
                at <= self.partitions@.len(),
                result@.len() == at,
                forall|j: int| 0 <= j < at ==> *(#[trigger] result@[j]) == self.partitions@[j].1,
            decreases self.partitions@.len() - at,
        {
            result.push(self.partitions.value(at));
            at = at + 1;
        }
        result
    }

    /// The keys of the partitions that are due at `now`, earliest first;
    /// `None` where none is due.
    pub fn get_partitions_to_expire(&self, now: DateTimeAsMicroseconds) -> (r: Option<
        Vec<&String>,
    >)
        requires
            self.wf(),
        ensures
            match r {
                Some(keys) => keys@.len() > 0 && keys@.map_values(|key: &String| *key)
                    == due_items(self.index(), now.unix_microseconds),
                None => due_items(self.index(), now.unix_microseconds).len() == 0,
            },
    {
        self.partitions_to_expire_index.get_items_to_expire(now)
    }

    pub fn get_all(&self) -> (r: &OrderedMap<DbPartition>)
        ensures
            r@ == self.partitions@,
    {
        &self.partitions
    }

    pub fn get(&self, partition_key: &str) -> (r: Option<&DbPartition>)
        requires
            self.wf(),
        ensures
            match r {
                Some(partition) => self.partition(partition_key.spec_bytes()) == Some(*partition),
                None => self.partition(partition_key.spec_bytes()) is None,
            },
    {
        self.partitions.get(partition_key)
    }

    /// The place of the partition of a key, and whether one stands there.
    pub fn find(&self, partition_key: &str) -> (r: (usize, bool))
        requires
            self.wf(),
        ensures
            r.0 == rank(self.partitions@, partition_key.spec_bytes()),
            r.1 == has_key(self.partitions@, partition_key.spec_bytes()),
            r.1 ==> r.0 < self.partitions@.len(),
    {
        self.partitions.find(partition_key)
    }

    /// The partition at a place, to be changed where it stands. The one
    /// who changes it sees to it that it stays well-formed and expires as
    /// before.
    pub fn partition_mut(&mut self, at: usize) -> (r: &mut DbPartition)
        requires
            at < old(self).partitions@.len(),
        ensures
            *r == old(self).partitions@[at as int].1,
            final(self).partitions@ == old(self).partitions@.update(
                at as int,
                (old(self).partitions@[at as int].0, *final(r)),
            ),
            final(self).partitions_to_expire_index == old(self).partitions_to_expire_index,
    {
        self.partitions.value_mut(at)
    }

    /// The partition of a key, to be changed where it stands. The one who
    /// changes it sees to it that it stays well-formed and expires as
    /// before.
    pub fn get_mut(&mut self, partition_key: &str) -> (r: Option<&mut DbPartition>)
        requires
            old(self).wf(),
        ensures
            final(self).partitions_to_expire_index == old(self).partitions_to_expire_index,
            match r {
                Some(partition) => old(self).partition(partition_key.spec_bytes()) == Some(
                    *partition,
                ) && final(self).partitions@ == put(
                    old(self).partitions@,
                    partition_key.spec_bytes(),
                    *final(partition),
                ),
                None => old(self).partition(partition_key.spec_bytes()) is None
                    && final(self).partitions@ == old(self).partitions@,
            },
    {
        let (at, found) = self.partitions.find(partition_key);
        if found {
            proof {
                lemma_rank(self.partitions@, partition_key.spec_bytes());
            }
            Some(self.partitions.value_mut(at))
        } else {
            None
        }
    }

    /// Lets the partition of the key expire at another instant, or never;
    /// tells whether the partition is there. The index follows.
    pub fn update_partition_expiration_time(
        &mut self,
        partition_key: &String,
        expires: Option<DateTimeAsMicroseconds>,
    ) -> (r: bool)
        requires
            old(self).wf(),
        ensures
            final(self).wf(),
            r == old(self).partition(encode_utf8(partition_key@)).is_some(),
            match old(self).partition(encode_utf8(partition_key@)) {
                Some(before) => final(self).partitions@ == put(
                    old(self).partitions@,
                    encode_utf8(partition_key@),
                    (DbPartition { expires, ..before }),
                ) && final(self).index() == index_with_name(
                    index_without_name(old(self).index(), before.expires, *partition_key),
                    expires,
                    *partition_key,
                ),
                None => final(self).partitions@ == old(self).partitions@ && final(self).index()
                    == old(self).index(),
            },
    {
        let ghost m = self.partitions@;
        let ghost key = encode_utf8(partition_key@);
        let (at, found) = self.partitions.find(partition_key.as_str());
        if !found {
            return false;
        }
        let old_expires = self.partitions.value(at).expires;
        proof {
            lemma_rank(m, key);
            let after = DbPartition { expires, ..m[at as int].1 };
            lemma_index_without_name(m, self.index(), *partition_key);
            lemma_index_with_name(
                m,
                index_without_name(self.index(), old_expires, *partition_key),
                *partition_key,
                after,
            );
            lemma_put_partitions_wf(m, key, after);
            assert(m.update(at as int, (key, after)) =~= put(m, key, after));
        }
        let partition = self.partitions.value_mut(at);
        partition.expires = expires;
        self.partitions_to_expire_index.remove(old_expires, partition_key);
        let partitions_now: usize = self.partitions.len();
        proof {
            // No more partitions expire than there are, this one among them.
            let left = index_without_name(old(self).index(), old_expires, *partition_key);
            lemma_index_fits_partitions(
                self.partitions@,
                index_with_name(left, expires, *partition_key),
            );
            if let Some(moment) = expires {
                lemma_with_item(left, moment.unix_microseconds, *partition_key);
            }
        }
        self.partitions_to_expire_index.add(expires, partition_key.clone());
        true
    }

    pub fn has_partition(&self, partition_key: &str) -> (r: bool)
        requires
            self.wf(),
        ensures
            r == self.partition(partition_key.spec_bytes()).is_some(),
    {
        self.partitions.contains_key(partition_key)
    }

    /// Puts the partition under the key, in place of the one that was
    /// there. The index follows.
    pub fn insert(&mut self, partition_key: &String, db_partition: DbPartition)
        requires
            old(self).wf(),
            db_partition.wf(),
        ensures
            final(self).wf(),
            final(self).partitions@ == put(
                old(self).partitions@,
                encode_utf8(partition_key@),
                db_partition,
            ),
            final(self).index() == index_with_name(
                index_without_name(
                    old(self).index(),
                    expiration_of(old(self).partition(encode_utf8(partition_key@))),
                    *partition_key,
                ),
                db_partition.expires,
                *partition_key,
            ),
    {
        proof {
            lemma_index_without_name(self.partitions@, self.index(), *partition_key);
            lemma_index_with_name(
                self.partitions@,
                index_without_name(
                    self.index(),
                    expiration_of(self.partition(encode_utf8(partition_key@))),
                    *partition_key,
                ),
                *partition_key,
                db_partition,
            );
            lemma_put_partitions_wf(self.partitions@, encode_utf8(partition_key@), db_partition);
        }
        let new_expires = db_partition.expires;
        let removed_partition = self.partitions.insert(partition_key.clone(), db_partition);
        if let Some(removed_partition) = removed_partition {
            self.partitions_to_expire_index.remove(removed_partition.expires, partition_key);
        }
        let partitions_now: usize = self.partitions.len();
        proof {
            // No more partitions expire than there are, the new one among
            // them.
            let left = index_without_name(
                old(self).index(),
                expiration_of(old(self).partition(encode_utf8(partition_key@))),
                *partition_key,
            );
            lemma_index_fits_partitions(
                self.partitions@,
                index_with_name(left, new_expires, *partition_key),
            );
            if let Some(moment) = new_expires {
                lemma_with_item(left, moment.unix_microseconds, *partition_key);
            }
        }
        self.partitions_to_expire_index.add(new_expires, partition_key.clone());
    }

    /// Takes out the partition kept under the key, and its entry in the
    /// index.
    pub fn remove(&mut self, partition_key: &String) -> (r: Option<DbPartition>)
        requires
            old(self).wf(),
        ensures
            final(self).wf(),
            r == old(self).partition(encode_utf8(partition_key@)),
            r matches Some(partition) ==> partition.wf(),
            final(self).partitions@ == without(old(self).partitions@, encode_utf8(partition_key@)),
            final(self).index() == index_without_name(
                old(self).index(),
                expiration_of(r),
                *partition_key,
            ),
    {
        proof {
            lemma_partitions_without_name(self.partitions@, self.index(), *partition_key);
            lemma_without_partitions_wf(self.partitions@, encode_utf8(partition_key@));
        }
        let removed_partition = self.partitions.remove(partition_key.as_str());
        if let Some(removed_partition) = &removed_partition {
            self.partitions_to_expire_index.remove(removed_partition.expires, partition_key);
        }
        removed_partition
    }

    /// Takes all partitions out and gives them back; `None` where there
    /// was none.
    pub fn clear(&mut self) -> (r: Option<OrderedMap<DbPartition>>)
        requires
            old(self).wf(),
        ensures
            final(self).wf(),
            final(self).partitions@.len() == 0,
            final(self).index().len() == 0,
            match r {
                Some(partitions) => partitions@ == old(self).partitions@ && partitions@.len() > 0,
                None => old(self).partitions@.len() == 0,
            },
    {
        self.partitions_to_expire_index.clear();
        if self.partitions.len() == 0 {
            return None;
        }
        let mut result: OrderedMap<DbPartition> = OrderedMap::new();
        std::mem::swap(&mut result, &mut self.partitions);
        Some(result)
    }

    /// The instants at which the partitions were last read, in the order of
    /// the partitions' keys. Each is what it was found to be when it was
    /// looked at.
    fn last_read_moments(&self) -> (r: Vec<i64>)
        ensures
            r@.len() == self.partitions@.len(),
    {
        let mut stamps: Vec<i64> = Vec::with_capacity(self.partitions.len());
        let mut at: usize = 0;
        while at < self.partitions.len()
            invariant
                at <= self.partitions@.len(),
                stamps@.len() == at,
            decreases self.partitions@.len() - at,
        {
            stamps.push(self.partitions.value(at).get_last_read_moment().unix_microseconds);
            at = at + 1;
        }
        stamps
    }

    /// The keys at the places `picks`.
    pub open spec fn keys_at(&self, picks: Seq<int>) -> Seq<Seq<u8>> {
        picks.map_values(|place: int| self.partitions@[place].0)
    }

    /// The keys of the partitions that have to go so that
    /// `max_partitions_amount` stay: those that were read longest ago, the
    /// one read longest ago first; of partitions read at one instant the one
    /// with the lower key comes first. `None` where no more partitions are
    /// kept than may stay.
    pub fn get_partitions_to_gc_by_max_amount(&self, max_partitions_amount: usize) -> (r: Option<
        Vec<&String>,
    >)
        ensures
            match r {
                Some(keys) => self.partitions@.len() > max_partitions_amount && exists|
                    stamps: Seq<i64>,
                    picks: Seq<int>,
                |
                    stamps.len() == self.partitions@.len() && picks.len() == self.partitions@.len()
                        - max_partitions_amount && are_oldest(stamps, picks)
                        && #[trigger] self.keys_at(picks) == keys@.map_values(
                        |key: &String| encode_utf8(key@),
                    ) && #[trigger] stamps.len() == self.partitions@.len(),
                None => self.partitions@.len() <= max_partitions_amount,
            },
    {
        if self.partitions.len() <= max_partitions_amount {
            return None;
        }
        let stamps = self.last_read_moments();
        let picks = oldest(&stamps, self.partitions.len() - max_partitions_amount);
        let mut result: Vec<&String> = Vec::with_capacity(picks.len());
        let mut at: usize = 0;
        while at < picks.len()
            invariant
                at <= picks@.len(),
                result@.len() == at,
                stamps@.len() == self.partitions@.len(),
                are_oldest(stamps@, places_of(picks@)),
                forall|j: int|
                    0 <= j < at ==> encode_utf8((#[trigger] result@[j])@)
                        == self.partitions@[places_of(picks@)[j]].0,
            decreases picks@.len() - at,
        {
            assert(0 <= places_of(picks@)[at as int] < stamps@.len());
            result.push(self.partitions.key(picks[at]));
            at = at + 1;
        }
        assert(self.keys_at(places_of(picks@)) =~= result@.map_values(
            |key: &String| encode_utf8(key@),
        ));
        Some(result)
    }
}

} // verus!
