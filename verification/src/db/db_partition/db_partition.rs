use std::sync::Arc;
use vstd::prelude::*;
use vstd::string::StringSliceAdditionalSpecFns;
use vstd::utf8::encode_utf8;
use crate::date_time::{AtomicDateTimeAsMicroseconds, DateTimeAsMicroseconds};
use crate::db::db_partition::db_rows_container::{
    index_with_row, index_without_row, lemma_kept_is_row_in, DbRowsContainer,
};
use crate::db::db_row::{
    is_with_expiration, lemma_with_expiration_len, share, DbRow, EXPIRES_FIELD_LEN,
};
use crate::expiration_index::due_items;
use crate::json_writer::JsonArrayWriter;
use crate::lru::{are_oldest, oldest, places_of, set_apart, set_instants_apart};
use crate::ordered_map::{
    has_key, is_sorted, lemma_put_places, lemma_rank, put, rank, value_at, without,
};

verus! {

/// A partition: its rows, the number of bytes they hold, when it was last
/// read and written, and when it expires as a whole.
pub struct DbPartition {
    pub expires: Option<DateTimeAsMicroseconds>,
    pub rows: DbRowsContainer,
    pub last_read_moment: AtomicDateTimeAsMicroseconds,
    pub last_write_moment: DateTimeAsMicroseconds,
    pub content_size: usize,
}

/// When to note that a partition was read.
#[derive(Clone, Copy, Debug, PartialEq, Eq, Structural)]
pub enum UpdatePartitionReadMoment {
    /// At the instant, whatever was found.
    Always(DateTimeAsMicroseconds),
    /// At the instant, where something was found.
    OnlyIfFound(DateTimeAsMicroseconds, bool),
    /// Never.
    Never,
}

impl UpdatePartitionReadMoment {
    /// The instant to note, where one is to be noted.
    pub open spec fn moment(self) -> Option<DateTimeAsMicroseconds> {
        match self {
            UpdatePartitionReadMoment::Always(now) => Some(now),
            UpdatePartitionReadMoment::OnlyIfFound(now, found) => if found {
                Some(now)
            } else {
                None
            },
            UpdatePartitionReadMoment::Never => None,
        }
    }

    pub fn moment_to_note(self) -> (r: Option<DateTimeAsMicroseconds>)
        ensures
            r == self.moment(),
    {
        match self {
            UpdatePartitionReadMoment::Always(now) => Some(now),
            UpdatePartitionReadMoment::OnlyIfFound(now, found) => if found {
                Some(now)
            } else {
                None
            },
            UpdatePartitionReadMoment::Never => None,
        }
    }
}

/// Whether to give an expiration anew, and which.
#[derive(Clone, Copy, Debug)]
pub enum UpdateExpirationDateTime {
    Yes(Option<DateTimeAsMicroseconds>),
    No,
}

/// What a reader asks to be done to the expirations of what it reads.
#[derive(Clone, Copy, Debug)]
pub struct UpdateExpirationTimeModel {
    pub update_db_rows_expiration_time: UpdateExpirationDateTime,
    pub update_db_partition_expiration_time: UpdateExpirationDateTime,
}

/// Whether `after` is the row `before` with the expiration given: the row
/// itself where it had that expiration, else a row with the bytes written
/// anew.
pub open spec fn is_row_after(
    after: Arc<DbRow>,
    before: Arc<DbRow>,
    expiration_time: Option<DateTimeAsMicroseconds>,
) -> bool {
    if before.expires == expiration_time {
        after == before
    } else {
        is_with_expiration(*after, *before, expiration_time)
    }
}

/// Whether `after` are the rows `before` with the expiration given to
/// those at the places that `touched` names, and the others as they were.
pub open spec fn are_rows_after(
    after: Seq<(Seq<u8>, Arc<DbRow>)>,
    before: Seq<(Seq<u8>, Arc<DbRow>)>,
    touched: spec_fn(int) -> bool,
    expiration_time: Option<DateTimeAsMicroseconds>,
) -> bool {
    &&& after.len() == before.len()
    &&& forall|i: int|
        0 <= i < after.len() ==> (#[trigger] after[i]).0 == before[i].0 && if touched(i) {
            is_row_after(after[i].1, before[i].1, expiration_time)
        } else {
            after[i].1 == before[i].1
        }
}

/// The rows that stand under the first `count` of `keys`, in that order.
pub open spec fn rows_found(
    m: Seq<(Seq<u8>, Arc<DbRow>)>,
    keys: Seq<String>,
    count: int,
) -> Seq<Arc<DbRow>>
    decreases count,
{
    if count <= 0 {
        Seq::empty()
    } else {
        match value_at(m, encode_utf8(keys[count - 1]@)) {
            Some(row) => rows_found(m, keys, count - 1).push(row),
            None => rows_found(m, keys, count - 1),
        }
    }
}

/// Whether one of the first `count` of `keys` is the key at the place.
pub open spec fn is_named(
    m: Seq<(Seq<u8>, Arc<DbRow>)>,
    keys: Seq<String>,
    count: int,
    place: int,
) -> bool {
    exists|j: int| 0 <= j < count && encode_utf8((#[trigger] keys[j])@) == m[place].0
}

/// The rows that stand under the keys of the first `count` rows are those
/// rows.
pub proof fn lemma_all_rows_found(m: Seq<(Seq<u8>, Arc<DbRow>)>, keys: Seq<String>, count: int)
    requires
        is_sorted(m),
        0 <= count <= m.len(),
        count <= keys.len(),
        forall|j: int| 0 <= j < count ==> encode_utf8((#[trigger] keys[j])@) == m[j].0,
    ensures
        rows_found(m, keys, count) == m.take(count).map_values(
            |entry: (Seq<u8>, Arc<DbRow>)| entry.1,
        ),
    decreases count,
{
    let rows = m.take(count).map_values(|entry: (Seq<u8>, Arc<DbRow>)| entry.1);
    if count > 0 {
        lemma_all_rows_found(m, keys, count - 1);
        crate::ordered_map::lemma_value_at_place(m, count - 1);
        let before = m.take(count - 1).map_values(|entry: (Seq<u8>, Arc<DbRow>)| entry.1);
        assert(rows =~= before.push(m[count - 1].1));
    } else {
        assert(rows =~= Seq::empty());
    }
}

/// The number of bytes that the rows hold.
pub open spec fn size_of_rows(m: Seq<(Seq<u8>, Arc<DbRow>)>) -> int
    decreases m.len(),
{
    if m.len() == 0 {
        0
    } else {
        size_of_rows(m.drop_last()) + m.last().1.data@.len()
    }
}

/// The number of bytes of a row that may be there.
pub open spec fn size_of_row(row: Option<Arc<DbRow>>) -> int {
    match row {
        Some(r) => r.data@.len() as int,
        None => 0,
    }
}

pub proof fn lemma_size_not_negative(m: Seq<(Seq<u8>, Arc<DbRow>)>)
    ensures
        0 <= size_of_rows(m),
    decreases m.len(),
{
    if m.len() > 0 {
        lemma_size_not_negative(m.drop_last());
    }
}

/// One more row makes the bytes more by its own.
pub proof fn lemma_size_insert(m: Seq<(Seq<u8>, Arc<DbRow>)>, at: int, entry: (Seq<u8>, Arc<DbRow>))
    requires
        0 <= at <= m.len(),
    ensures
        size_of_rows(m.insert(at, entry)) == size_of_rows(m) + entry.1.data@.len(),
    decreases m.len() - at,
{
    let n = m.insert(at, entry);
    if at == m.len() {
        assert(n.drop_last() =~= m);
    } else {
        lemma_size_insert(m.drop_last(), at, entry);
        assert(n.drop_last() =~= m.drop_last().insert(at, entry));
        assert(n.last() == m.last());
    }
}

/// One row less makes the bytes fewer by its own.
pub proof fn lemma_size_remove(m: Seq<(Seq<u8>, Arc<DbRow>)>, at: int)
    requires
        0 <= at < m.len(),
    ensures
        size_of_rows(m.remove(at)) == size_of_rows(m) - m[at].1.data@.len(),
    decreases m.len() - at,
{
    let n = m.remove(at);
    if at == m.len() - 1 {
        assert(n =~= m.drop_last());
    } else {
        lemma_size_remove(m.drop_last(), at);
        assert(n.drop_last() =~= m.drop_last().remove(at));
        assert(n.last() == m.last());
    }
}

/// Another row at a place changes the bytes by the difference.
pub proof fn lemma_size_update(m: Seq<(Seq<u8>, Arc<DbRow>)>, at: int, entry: (Seq<u8>, Arc<DbRow>))
    requires
        0 <= at < m.len(),
    ensures
        size_of_rows(m.update(at, entry)) == size_of_rows(m) - m[at].1.data@.len()
            + entry.1.data@.len(),
{
    lemma_size_remove(m, at);
    lemma_size_insert(m.remove(at), at, entry);
    assert(m.remove(at).insert(at, entry) =~= m.update(at, entry));
}

/// The bytes after a row was put under its key.
pub proof fn lemma_size_put(m: Seq<(Seq<u8>, Arc<DbRow>)>, key: Seq<u8>, row: Arc<DbRow>)
    requires
        is_sorted(m),
    ensures
        size_of_rows(put(m, key, row)) == size_of_rows(m) + row.data@.len() - size_of_row(
            value_at(m, key),
        ),
{
    lemma_rank(m, key);
    if has_key(m, key) {
        lemma_size_update(m, rank(m, key), (key, row));
    } else {
        lemma_size_insert(m, rank(m, key), (key, row));
    }
}

/// The bytes after a key was taken out.
pub proof fn lemma_size_without(m: Seq<(Seq<u8>, Arc<DbRow>)>, key: Seq<u8>)
    requires
        is_sorted(m),
    ensures
        size_of_rows(without(m, key)) == size_of_rows(m) - size_of_row(value_at(m, key)),
{
    lemma_rank(m, key);
    if has_key(m, key) {
        lemma_size_remove(m, rank(m, key));
    }
}

/// A row's bytes are among the bytes of the rows.
pub proof fn lemma_size_holds_row(m: Seq<(Seq<u8>, Arc<DbRow>)>, at: int)
    requires
        0 <= at < m.len(),
    ensures
        m[at].1.data@.len() <= size_of_rows(m),
{
    lemma_size_remove(m, at);
    lemma_size_not_negative(m.remove(at));
}

/// The rows after the first `count` of `rows` were put in, one after the
/// other.
pub open spec fn rows_put(
    m: Seq<(Seq<u8>, Arc<DbRow>)>,
    rows: Seq<Arc<DbRow>>,
    count: int,
) -> Seq<(Seq<u8>, Arc<DbRow>)>
    decreases count,
{
    if count <= 0 {
        m
    } else {
        put(rows_put(m, rows, count - 1), rows[count - 1].key(), rows[count - 1])
    }
}

/// The index after the first `count` of `rows` were put in.
pub open spec fn index_put(
    m: Seq<(Seq<u8>, Arc<DbRow>)>,
    e: Seq<(i64, Arc<DbRow>)>,
    rows: Seq<Arc<DbRow>>,
    count: int,
) -> Seq<(i64, Arc<DbRow>)>
    decreases count,
{
    if count <= 0 {
        e
    } else {
        index_with_row(
            index_without_row(
                index_put(m, e, rows, count - 1),
                value_at(rows_put(m, rows, count - 1), rows[count - 1].key()),
            ),
            rows[count - 1],
        )
    }
}

/// The rows that lost their place when the first `count` of `rows` were
/// put in, in the order in which they lost it.
pub open spec fn rows_displaced(
    m: Seq<(Seq<u8>, Arc<DbRow>)>,
    rows: Seq<Arc<DbRow>>,
    count: int,
) -> Seq<Arc<DbRow>>
    decreases count,
{
    if count <= 0 {
        Seq::empty()
    } else {
        match value_at(rows_put(m, rows, count - 1), rows[count - 1].key()) {
            Some(old_row) => rows_displaced(m, rows, count - 1).push(old_row),
            None => rows_displaced(m, rows, count - 1),
        }
    }
}

/// The bytes of the first `count` of `rows`.
pub open spec fn size_of_first(rows: Seq<Arc<DbRow>>, count: int) -> int
    decreases count,
{
    if count <= 0 {
        0
    } else {
        size_of_first(rows, count - 1) + rows[count - 1].data@.len()
    }
}

pub proof fn lemma_size_of_first_grows(rows: Seq<Arc<DbRow>>, a: int, b: int)
    requires
        0 <= a <= b,
    ensures
        0 <= size_of_first(rows, a) <= size_of_first(rows, b),
    decreases b,
{
    if a < b {
        lemma_size_of_first_grows(rows, a, b - 1);
    } else if a > 0 {
        lemma_size_of_first_grows(rows, a - 1, a - 1);
    }
}

/// The rows after the first `count` of `keys` were taken out.
pub open spec fn rows_without(
    m: Seq<(Seq<u8>, Arc<DbRow>)>,
    keys: Seq<String>,
    count: int,
) -> Seq<(Seq<u8>, Arc<DbRow>)>
    decreases count,
{
    if count <= 0 {
        m
    } else {
        without(rows_without(m, keys, count - 1), encode_utf8(keys[count - 1]@))
    }
}

/// The index after the first `count` of `keys` were taken out.
pub open spec fn index_without(
    m: Seq<(Seq<u8>, Arc<DbRow>)>,
    e: Seq<(i64, Arc<DbRow>)>,
    keys: Seq<String>,
    count: int,
) -> Seq<(i64, Arc<DbRow>)>
    decreases count,
{
    if count <= 0 {
        e
    } else {
        index_without_row(
            index_without(m, e, keys, count - 1),
            value_at(rows_without(m, keys, count - 1), encode_utf8(keys[count - 1]@)),
        )
    }
}

/// The rows that were found and taken out under the first `count` of
/// `keys`, in that order.
pub open spec fn rows_removed(
    m: Seq<(Seq<u8>, Arc<DbRow>)>,
    keys: Seq<String>,
    count: int,
) -> Seq<Arc<DbRow>>
    decreases count,
{
    if count <= 0 {
        Seq::empty()
    } else {
        match value_at(rows_without(m, keys, count - 1), encode_utf8(keys[count - 1]@)) {
            Some(old_row) => rows_removed(m, keys, count - 1).push(old_row),
            None => rows_removed(m, keys, count - 1),
        }
    }
}

/// Whether `keys` are the keys of the rows at the places `picks`.
pub open spec fn keys_are_at(
    m: Seq<(Seq<u8>, Arc<DbRow>)>,
    picks: Seq<int>,
    keys: Seq<String>,
) -> bool {
    &&& keys.len() == picks.len()
    &&& forall|j: int| 0 <= j < keys.len() ==> encode_utf8((#[trigger] keys[j])@) == m[picks[j]].0
}

/// Taking out the rows at different places makes the rows fewer by the
/// number of the places.
pub proof fn lemma_rows_without_len(
    m: Seq<(Seq<u8>, Arc<DbRow>)>,
    picks: Seq<int>,
    keys: Seq<String>,
    count: int,
)
    requires
        is_sorted(m),
        keys_are_at(m, picks, keys),
        0 <= count <= keys.len(),
        forall|j: int| 0 <= j < picks.len() ==> 0 <= #[trigger] picks[j] < m.len(),
        forall|j: int, k: int| 0 <= j < k < picks.len() ==> picks[j] != picks[k],
    ensures
        is_sorted(rows_without(m, keys, count)),
        rows_without(m, keys, count).len() == m.len() - count,
        forall|j: int|
            count <= j < keys.len() ==> has_key(
                rows_without(m, keys, count),
                encode_utf8((#[trigger] keys[j])@),
            ),
    decreases count,
{
    if count > 0 {
        lemma_rows_without_len(m, picks, keys, count - 1);
        let before = rows_without(m, keys, count - 1);
        let key = encode_utf8(keys[count - 1]@);
        assert(has_key(before, key));
        crate::ordered_map::lemma_without(before, key);
        assert forall|j: int| count <= j < keys.len() implies has_key(
            rows_without(m, keys, count),
            encode_utf8((#[trigger] keys[j])@),
        ) by {
            let other = encode_utf8(keys[j]@);
            assert(picks[count - 1] != picks[j]);
            if picks[count - 1] < picks[j] {
                assert(crate::key_order::bytes_less(m[picks[count - 1]].0, m[picks[j]].0));
            } else {
                assert(crate::key_order::bytes_less(m[picks[j]].0, m[picks[count - 1]].0));
            }
            crate::key_order::lemma_bytes_less_irreflexive(key);
            crate::ordered_map::lemma_without_other(before, key, other);
        }
    } else {
        assert forall|j: int| 0 <= j < keys.len() implies has_key(
            m,
            encode_utf8((#[trigger] keys[j])@),
        ) by {
            crate::ordered_map::lemma_value_at_place(m, picks[j]);
        }
    }
}

/// The list, or `None` where it is empty.
pub fn none_if_empty<T>(list: Vec<T>) -> (r: Option<Vec<T>>)
    ensures
        match r {
            Some(items) => items@ == list@ && list@.len() > 0,
            None => list@.len() == 0,
        },
{
    if list.len() == 0 {
        None
    } else {
        Some(list)
    }
}

impl DbPartition {
    /// The rows are well-formed and `content_size` is the number of their
    /// bytes.
    pub open spec fn wf(&self) -> bool {
        &&& self.rows.wf()
        &&& self.content_size == size_of_rows(self.rows.data@)
    }

    /// A partition without rows that does not expire; it was last read and
    /// written at the instant that the machine's clock shows.
    pub fn new() -> (r: DbPartition)
        ensures
            r.wf(),
            r.rows.data@.len() == 0,
            r.rows.index().len() == 0,
            r.content_size == 0,
            r.expires is None,
    {
        DbPartition {
            rows: DbRowsContainer::new(),
            last_read_moment: AtomicDateTimeAsMicroseconds::now(),
            last_write_moment: DateTimeAsMicroseconds::now(),
            content_size: 0,
            expires: None,
        }
    }

    pub fn get_rows_to_expire(&self, now: DateTimeAsMicroseconds) -> (r: Option<
        Vec<&Arc<DbRow>>,
    >)
        requires
            self.wf(),
        ensures
            match r {
                Some(rows) => rows@.len() > 0 && rows@.map_values(|row: &Arc<DbRow>| *row)
                    == due_items(self.rows.index(), now.unix_microseconds),
                None => due_items(self.rows.index(), now.unix_microseconds).len() == 0,
            },
    {
        self.rows.get_rows_to_expire(now)
    }

    /// The number of bytes that the rows hold.
    pub fn get_content_size(&self) -> (r: usize)
        ensures
            r == self.content_size,
            self.wf() ==> r == size_of_rows(self.rows.data@),
    {
        self.content_size
    }

    pub fn rows_count(&self) -> (r: usize)
        ensures
            r == self.rows.data@.len(),
    {
        self.rows.len()
    }

    /// Puts the row in where no row stands under its key, and tells
    /// whether it did.
    pub fn insert_row(&mut self, db_row: Arc<DbRow>) -> (r: bool)
        requires
            old(self).wf(),
            db_row.wf(),
            old(self).content_size + db_row.data@.len() <= usize::MAX,
        ensures
            final(self).wf(),
            r == old(self).rows.row(db_row.key()).is_none(),
            final(self).expires == old(self).expires,
            final(self).last_write_moment == old(self).last_write_moment,
            r ==> final(self).rows.data@ == put(old(self).rows.data@, db_row.key(), db_row)
                && final(self).rows.index() == index_with_row(old(self).rows.index(), db_row)
                && final(self).content_size == old(self).content_size + db_row.data@.len(),
            !r ==> final(self).rows.data@ == old(self).rows.data@ && final(self).rows.index()
                == old(self).rows.index() && final(self).content_size == old(self).content_size,
    {
        if self.rows.has_db_row(db_row.row_key.as_str()) {
            return false;
        }
        self.insert_or_replace_row(db_row);
        true
    }

    /// Puts the row under its key, in place of the row that was there, and
    /// gives that one back.
    pub fn insert_or_replace_row(&mut self, db_row: Arc<DbRow>) -> (r: Option<Arc<DbRow>>)
        requires
            old(self).wf(),
            db_row.wf(),
            old(self).content_size + db_row.data@.len() <= usize::MAX,
        ensures
            final(self).wf(),
            r == old(self).rows.row(db_row.key()),
            final(self).expires == old(self).expires,
            final(self).last_write_moment == old(self).last_write_moment,
            final(self).rows.data@ == put(old(self).rows.data@, db_row.key(), db_row),
            final(self).rows.index() == index_with_row(
                index_without_row(old(self).rows.index(), r),
                db_row,
            ),
            final(self).content_size == old(self).content_size + db_row.data@.len() - size_of_row(
                r,
            ),
    {
        proof {
            lemma_size_put(self.rows.data@, db_row.key(), db_row);
        }
        self.content_size = self.content_size + db_row.data.len();
        let result = self.rows.insert(db_row);
        if let Some(removed_item) = &result {
            proof {
                lemma_kept_is_row_in(old(self).rows.data@, db_row.key());
                let at = choose|at: int|
                    0 <= at < old(self).rows.data@.len() && (#[trigger] old(
                        self,
                    ).rows.data@[at]).1 == *removed_item;
                lemma_size_holds_row(old(self).rows.data@, at);
            }
            self.content_size = self.content_size - removed_item.data.len();
        }
        result
    }

    /// Puts the rows in, one after the other, each in place of the row
    /// that stood under its key; gives back the rows that lost their place,
    /// or `None` where none did.
    pub fn insert_or_replace_rows_bulk(&mut self, db_rows: &[Arc<DbRow>]) -> (r: Option<
        Vec<Arc<DbRow>>,
    >)
        requires
            old(self).wf(),
            forall|i: int| 0 <= i < db_rows@.len() ==> (#[trigger] db_rows@[i]).wf(),
            old(self).content_size + size_of_first(db_rows@, db_rows@.len() as int) <= usize::MAX,
        ensures
            final(self).wf(),
            final(self).expires == old(self).expires,
            final(self).last_write_moment == old(self).last_write_moment,
            final(self).rows.data@ == rows_put(
                old(self).rows.data@,
                db_rows@,
                db_rows@.len() as int,
            ),
            final(self).rows.index() == index_put(
                old(self).rows.data@,
                old(self).rows.index(),
                db_rows@,
                db_rows@.len() as int,
            ),
            match r {
                Some(rows) => rows@.len() > 0 && rows@ == rows_displaced(
                    old(self).rows.data@,
                    db_rows@,
                    db_rows@.len() as int,
                ),
                None => rows_displaced(old(self).rows.data@, db_rows@, db_rows@.len() as int).len()
                    == 0,
            },
            final(self).content_size <= old(self).content_size + size_of_first(
                db_rows@,
                db_rows@.len() as int,
            ),
            final(self).rows.data@.len() <= old(self).rows.data@.len() + db_rows@.len(),
    {
        let mut result: Vec<Arc<DbRow>> = Vec::new();
        let mut at: usize = 0;
        while at < db_rows.len()
            invariant
                at <= db_rows@.len(),
                self.wf(),
                self.expires == old(self).expires,
                self.last_write_moment == old(self).last_write_moment,
                forall|i: int| 0 <= i < db_rows@.len() ==> (#[trigger] db_rows@[i]).wf(),
                old(self).content_size + size_of_first(db_rows@, db_rows@.len() as int)
                    <= usize::MAX,
                self.content_size <= old(self).content_size + size_of_first(db_rows@, at as int),
                self.rows.data@.len() <= old(self).rows.data@.len() + at,
                self.rows.data@ == rows_put(old(self).rows.data@, db_rows@, at as int),
                self.rows.index() == index_put(
                    old(self).rows.data@,
                    old(self).rows.index(),
                    db_rows@,
                    at as int,
                ),
                result@ == rows_displaced(old(self).rows.data@, db_rows@, at as int),
            decreases db_rows@.len() - at,
        {
            proof {
                lemma_size_of_first_grows(db_rows@, at + 1, db_rows@.len() as int);
                lemma_size_not_negative(self.rows.data@);
                crate::ordered_map::lemma_put(
                    self.rows.data@,
                    db_rows@[at as int].key(),
                    db_rows@[at as int],
                );
            }
            if let Some(removed_item) = self.insert_or_replace_row(share(&db_rows[at])) {
                result.push(removed_item);
            }
            at = at + 1;
        }
        none_if_empty(result)
    }

    /// Takes out the row kept under the key.
    pub fn remove_row(&mut self, row_key: &str) -> (r: Option<Arc<DbRow>>)
        requires
            old(self).wf(),
        ensures
            final(self).wf(),
            r == old(self).rows.row(row_key.spec_bytes()),
            final(self).expires == old(self).expires,
            final(self).last_write_moment == old(self).last_write_moment,
            final(self).rows.data@ == without(old(self).rows.data@, row_key.spec_bytes()),
            final(self).rows.index() == index_without_row(old(self).rows.index(), r),
            final(self).content_size == old(self).content_size - size_of_row(r),
    {
        proof {
            lemma_size_without(self.rows.data@, row_key.spec_bytes());
        }
        let result = self.rows.remove(row_key);
        if let Some(removed_item) = &result {
            proof {
                lemma_kept_is_row_in(old(self).rows.data@, row_key.spec_bytes());
                let at = choose|at: int|
                    0 <= at < old(self).rows.data@.len() && (#[trigger] old(
                        self,
                    ).rows.data@[at]).1 == *removed_item;
                lemma_size_holds_row(old(self).rows.data@, at);
            }
            self.content_size = self.content_size - removed_item.data.len();
        }
        result
    }

    /// Takes out the rows kept under the keys, one after the other; gives
    /// back the rows that were found, or `None` where none was.
    pub fn remove_rows_bulk(&mut self, row_keys: &[String]) -> (r: Option<Vec<Arc<DbRow>>>)
        requires
            old(self).wf(),
        ensures
            final(self).wf(),
            final(self).expires == old(self).expires,
            final(self).last_write_moment == old(self).last_write_moment,
            final(self).rows.data@ == rows_without(
                old(self).rows.data@,
                row_keys@,
                row_keys@.len() as int,
            ),
            final(self).rows.index() == index_without(
                old(self).rows.data@,
                old(self).rows.index(),
                row_keys@,
                row_keys@.len() as int,
            ),
            match r {
                Some(rows) => rows@.len() > 0 && rows@ == rows_removed(
                    old(self).rows.data@,
                    row_keys@,
                    row_keys@.len() as int,
                ),
                None => rows_removed(old(self).rows.data@, row_keys@, row_keys@.len() as int).len()
                    == 0,
            },
            final(self).content_size <= old(self).content_size,
            final(self).rows.data@.len() <= old(self).rows.data@.len(),
            r is None ==> final(self).rows.data@ == old(self).rows.data@,
            r is None ==> final(self).rows.index() == old(self).rows.index(),
    {
        let mut result: Vec<Arc<DbRow>> = Vec::new();
        let mut at: usize = 0;
        while at < row_keys.len()
            invariant
                at <= row_keys@.len(),
                self.wf(),
                self.expires == old(self).expires,
                self.last_write_moment == old(self).last_write_moment,
                self.rows.data@ == rows_without(old(self).rows.data@, row_keys@, at as int),
                self.rows.index() == index_without(
                    old(self).rows.data@,
                    old(self).rows.index(),
                    row_keys@,
                    at as int,
                ),
                result@ == rows_removed(old(self).rows.data@, row_keys@, at as int),
                self.content_size <= old(self).content_size,
                self.rows.data@.len() <= old(self).rows.data@.len(),
                result@.len() == 0 ==> self.rows.data@ == old(self).rows.data@
                    && self.rows.index() == old(self).rows.index(),
            decreases row_keys@.len() - at,
        {
            proof {
                crate::ordered_map::lemma_without(
                    self.rows.data@,
                    encode_utf8(row_keys@[at as int]@),
                );
                crate::ordered_map::lemma_rank(
                    self.rows.data@,
                    encode_utf8(row_keys@[at as int]@),
                );
            }
            if let Some(removed_item) = self.remove_row(row_keys[at].as_str()) {
                result.push(removed_item);
            }
            at = at + 1;
        }
        none_if_empty(result)
    }

    /// Gives the row under `row_key` another expiration: a row with the
    /// bytes written anew takes its place, and the row that was there is
    /// given back. Nothing is done, and `None` given, where no row stands
    /// under the key or the row has that expiration already.
    pub fn update_expiration_time(
        &mut self,
        row_key: &str,
        expiration_time: Option<DateTimeAsMicroseconds>,
    ) -> (r: Option<Arc<DbRow>>)
        requires
            old(self).wf(),
            expiration_time matches Some(moment) ==> moment.has_text(),
            old(self).content_size + EXPIRES_FIELD_LEN <= usize::MAX,
        ensures
            final(self).wf(),
            final(self).expires == old(self).expires,
            final(self).last_write_moment == old(self).last_write_moment,
            final(self).content_size <= old(self).content_size + EXPIRES_FIELD_LEN,
            are_rows_after(
                final(self).rows.data@,
                old(self).rows.data@,
                |place: int| old(self).rows.data@[place].0 == row_key.spec_bytes(),
                expiration_time,
            ),
            match old(self).rows.row(row_key.spec_bytes()) {
                Some(row) if row.expires != expiration_time => r == Some(row),
                _ => r is None && final(self).rows.data@ == old(self).rows.data@
                    && final(self).rows.index() == old(self).rows.index(),
            },
    {
        let ghost m = self.rows.data@;
        let ghost key = row_key.spec_bytes();
        proof {
            lemma_rank(m, key);
        }
        let removed = match self.rows.update_expiration_time(row_key, expiration_time) {
            Some(row) => row,
            None => {
                return None;
            },
        };
        let new_len: usize = match self.rows.get(row_key) {
            Some(row) => row.data.len(),
            None => 0,
        };
        proof {
            let new_row = self.rows.row(key).unwrap();
            lemma_kept_is_row_in(m, key);
            lemma_with_expiration_len(new_row, removed, expiration_time);
            lemma_size_put(m, key, new_row);
            lemma_size_holds_row(m, rank(m, key));
            lemma_put_places(m, key, new_row);
            crate::ordered_map::lemma_put(m, key, new_row);
        }
        self.content_size = self.content_size - removed.data.len() + new_len;
        Some(removed)
    }

    /// The rows that stand under the keys, in the order of the keys, as
    /// they stand; `None` where there is none. Where that is asked for,
    /// each of them is then given the expiration.
    pub fn get_rows_and_update_expiration_time(
        &mut self,
        row_keys: &[String],
        update_rows: UpdateExpirationDateTime,
    ) -> (r: Option<Vec<Arc<DbRow>>>)
        requires
            old(self).wf(),
            update_rows matches UpdateExpirationDateTime::Yes(Some(moment)) ==> moment.has_text(),
            old(self).content_size + EXPIRES_FIELD_LEN * row_keys@.len() <= usize::MAX,
        ensures
            final(self).wf(),
            final(self).expires == old(self).expires,
            final(self).last_write_moment == old(self).last_write_moment,
            final(self).content_size <= old(self).content_size + EXPIRES_FIELD_LEN
                * row_keys@.len(),
            match r {
                Some(rows) => rows@.len() > 0 && rows@ == rows_found(
                    old(self).rows.data@,
                    row_keys@,
                    row_keys@.len() as int,
                ),
                None => rows_found(
                    old(self).rows.data@,
                    row_keys@,
                    row_keys@.len() as int,
                ).len() == 0,
            },
            match update_rows {
                UpdateExpirationDateTime::Yes(expiration_time) => are_rows_after(
                    final(self).rows.data@,
                    old(self).rows.data@,
                    |place: int|
                        is_named(old(self).rows.data@, row_keys@, row_keys@.len() as int, place),
                    expiration_time,
                ),
                UpdateExpirationDateTime::No => final(self).rows.data@ == old(self).rows.data@
                    && final(self).rows.index() == old(self).rows.index(),
            },
    {
        let mut result: Vec<Arc<DbRow>> = Vec::new();
        let mut at: usize = 0;
        while at < row_keys.len()
            invariant
                at <= row_keys@.len(),
                self.wf(),
                *self == *old(self),
                result@ == rows_found(self.rows.data@, row_keys@, at as int),
            decreases row_keys@.len() - at,
        {
            if let Some(row) = self.get_row_and_clone(row_keys[at].as_str()) {
                result.push(row);
            }
            at = at + 1;
        }
        if let UpdateExpirationDateTime::Yes(expiration_time) = update_rows {
            let ghost m = self.rows.data@;
            let mut at: usize = 0;
            while at < row_keys.len()
                invariant
                    at <= row_keys@.len(),
                    self.wf(),
                    m == old(self).rows.data@,
                    self.expires == old(self).expires,
                    self.last_write_moment == old(self).last_write_moment,
                    expiration_time matches Some(moment) ==> moment.has_text(),
                    old(self).content_size + EXPIRES_FIELD_LEN * row_keys@.len() <= usize::MAX,
                    self.content_size <= old(self).content_size + EXPIRES_FIELD_LEN * at,
                    are_rows_after(
                        self.rows.data@,
                        m,
                        |place: int| is_named(m, row_keys@, at as int, place),
                        expiration_time,
                    ),
                decreases row_keys@.len() - at,
            {
                let ghost before = self.rows.data@;
                self.update_expiration_time(row_keys[at].as_str(), expiration_time);
                proof {
                    let after = self.rows.data@;
                    let key = encode_utf8(row_keys@[at as int]@);
                    assert forall|i: int| 0 <= i < after.len() implies (#[trigger] after[i]).0
                        == m[i].0 && if is_named(m, row_keys@, at + 1, i) {
                        is_row_after(after[i].1, m[i].1, expiration_time)
                    } else {
                        after[i].1 == m[i].1
                    } by {
                        assert(before[i].0 == m[i].0);
                        if is_named(m, row_keys@, at as int, i) {
                            let j = choose|j: int|
                                0 <= j < at && encode_utf8((#[trigger] row_keys@[j])@) == m[i].0;
                            assert(encode_utf8(row_keys@[j]@) == m[i].0);
                        }
                        if before[i].0 == key {
                            assert(encode_utf8(row_keys@[at as int]@) == m[i].0);
                        }
                        if is_named(m, row_keys@, at + 1, i) {
                            let j = choose|j: int|
                                0 <= j < at + 1 && encode_utf8((#[trigger] row_keys@[j])@)
                                    == m[i].0;
                            if j < at {
                                assert(is_named(m, row_keys@, at as int, i));
                            }
                        }
                    }
                }
                at = at + 1;
            }
        }
        none_if_empty(result)
    }

    /// All rows, in the order of their keys, as they stand. Where that is
    /// asked for, each of them is then given the expiration.
    pub fn get_all_rows_and_update_expiration_time(
        &mut self,
        update_rows: UpdateExpirationDateTime,
    ) -> (r: Vec<Arc<DbRow>>)
        requires
            old(self).wf(),
            update_rows matches UpdateExpirationDateTime::Yes(Some(moment)) ==> moment.has_text(),
            old(self).content_size + EXPIRES_FIELD_LEN * old(self).rows.data@.len()
                <= usize::MAX,
        ensures
            final(self).wf(),
            final(self).expires == old(self).expires,
            final(self).last_write_moment == old(self).last_write_moment,
            final(self).content_size <= old(self).content_size + EXPIRES_FIELD_LEN
                * old(self).rows.data@.len(),
            r@ == old(self).rows.rows(),
            match update_rows {
                UpdateExpirationDateTime::Yes(expiration_time) => are_rows_after(
                    final(self).rows.data@,
                    old(self).rows.data@,
                    |place: int| true,
                    expiration_time,
                ),
                UpdateExpirationDateTime::No => final(self).rows.data@ == old(self).rows.data@
                    && final(self).rows.index() == old(self).rows.index(),
            },
    {
        let ghost m = self.rows.data@;
        let mut keys: Vec<String> = Vec::with_capacity(self.rows.len());
        let mut at: usize = 0;
        while at < self.rows.data.len()
            invariant
                at <= self.rows.data@.len(),
                *self == *old(self),
                m == self.rows.data@,
                keys@.len() == at,
                forall|j: int| 0 <= j < at ==> encode_utf8((#[trigger] keys@[j])@) == m[j].0,
            decreases self.rows.data@.len() - at,
        {
            keys.push(self.rows.data.key(at).clone());
            at = at + 1;
        }
        proof {
            lemma_all_rows_found(m, keys@, keys@.len() as int);
            assert(m.take(m.len() as int) =~= m);
            assert(m.map_values(|entry: (Seq<u8>, Arc<DbRow>)| entry.1) =~= self.rows.rows());
        }
        let found = self.get_rows_and_update_expiration_time(keys.as_slice(), update_rows);
        proof {
            if let UpdateExpirationDateTime::Yes(expiration_time) = update_rows {
                let after = self.rows.data@;
                assert forall|i: int| 0 <= i < after.len() implies (#[trigger] after[i]).0
                    == m[i].0 && is_row_after(after[i].1, m[i].1, expiration_time) by {
                    assert(encode_utf8(keys@[i]@) == m[i].0);
                    assert(is_named(m, keys@, keys@.len() as int, i));
                }
            }
        }
        match found {
            Some(rows) => rows,
            None => Vec::new(),
        }
    }

    /// Takes out the rows that were read longest ago, so that no more than
    /// `max_rows_amount` stay, and gives them back; `None` where no more
    /// rows are kept than may stay. Rows that were read at one instant are
    /// first set apart: each, in the order of the keys, gets the next
    /// instant that no row before it has, and keeps it.
    pub fn gc_rows(&mut self, max_rows_amount: usize) -> (r: Option<Vec<Arc<DbRow>>>)
        requires
            old(self).wf(),
        ensures
            final(self).wf(),
            final(self).expires == old(self).expires,
            final(self).last_write_moment == old(self).last_write_moment,
            old(self).rows.data@.len() <= max_rows_amount ==> r is None && final(self).rows.data@
                == old(self).rows.data@ && final(self).rows.index() == old(self).rows.index(),
            old(self).rows.data@.len() > max_rows_amount ==> final(self).rows.data@.len()
                == max_rows_amount,
            old(self).rows.data@.len() > max_rows_amount ==> exists|
                stamps: Seq<i64>,
                picks: Seq<int>,
                keys: Seq<String>,
            |
                #![trigger
                    keys_are_at(old(self).rows.data@, picks, keys),
                    set_apart(stamps, stamps.len() as int)
                ]
                {
                    &&& stamps.len() == old(self).rows.data@.len()
                    &&& picks.len() == old(self).rows.data@.len() - max_rows_amount
                    &&& are_oldest(set_apart(stamps, stamps.len() as int), picks)
                    &&& keys_are_at(old(self).rows.data@, picks, keys)
                    &&& final(self).rows.data@ == rows_without(
                        old(self).rows.data@,
                        keys,
                        keys.len() as int,
                    )
                    &&& final(self).rows.index() == index_without(
                        old(self).rows.data@,
                        old(self).rows.index(),
                        keys,
                        keys.len() as int,
                    )
                    &&& match r {
                        Some(rows) => rows@ == rows_removed(
                            old(self).rows.data@,
                            keys,
                            keys.len() as int,
                        ),
                        None => rows_removed(
                            old(self).rows.data@,
                            keys,
                            keys.len() as int,
                        ).len() == 0,
                    }
                },
    {
        if self.rows.len() <= max_rows_amount {
            return None;
        }
        let stamps = self.rows.last_read_moments();
        let apart = set_instants_apart(&stamps);
        proof {
            crate::lru::lemma_set_apart_len(stamps@, stamps@.len() as int);
        }
        let mut at: usize = 0;
        while at < stamps.len()
            invariant
                at <= stamps@.len(),
                stamps@.len() == self.rows.data@.len(),
                apart@.len() == stamps@.len(),
            decreases stamps@.len() - at,
        {
            if apart[at] != stamps[at] {
                self.rows.data.value(at).update_last_read_access(
                    DateTimeAsMicroseconds::new(apart[at]),
                );
            }
            at = at + 1;
        }
        let picks = oldest(&apart, self.rows.len() - max_rows_amount);
        let mut keys: Vec<String> = Vec::with_capacity(picks.len());
        let mut at: usize = 0;
        while at < picks.len()
            invariant
                at <= picks@.len(),
                keys@.len() == at,
                apart@.len() == self.rows.data@.len(),
                are_oldest(apart@, places_of(picks@)),
                forall|j: int|
                    0 <= j < at ==> encode_utf8((#[trigger] keys@[j])@)
                        == self.rows.data@[places_of(picks@)[j]].0,
            decreases picks@.len() - at,
        {
            assert(0 <= places_of(picks@)[at as int] < apart@.len());
            keys.push(self.rows.data.key(picks[at]).clone());
            at = at + 1;
        }
        proof {
            let places = places_of(picks@);
            assert(keys_are_at(self.rows.data@, places, keys@));
            assert forall|j: int, k: int| 0 <= j < k < places.len() implies places[j]
                != places[k] by {
                assert(crate::lru::stamp_before(apart@, places[j], places[k]));
            }
            lemma_rows_without_len(self.rows.data@, places, keys@, keys@.len() as int);
        }
        self.remove_rows_bulk(keys.as_slice())
    }

    /// All rows, in the order of their keys.
    pub fn get_all_rows(&self) -> (r: Vec<&Arc<DbRow>>)
        ensures
            r@.map_values(|row: &Arc<DbRow>| *row) == self.rows.rows(),
    {
        self.rows.get_all()
    }

    /// One more handle to each row, in the order of their keys.
    pub fn get_all_rows_cloned(&self) -> (r: Vec<Arc<DbRow>>)
        ensures
            r@ == self.rows.rows(),
    {
        let mut result: Vec<Arc<DbRow>> = Vec::with_capacity(self.rows.len());
        let mut at: usize = 0;
        while at < self.rows.data.len()
            invariant
                at <= self.rows.data@.len(),
                result@.len() == at,
                forall|j: int| 0 <= j < at ==> #[trigger] result@[j] == self.rows.data@[j].1,
            decreases self.rows.data@.len() - at,
        {
            result.push(share(self.rows.data.value(at)));
            at = at + 1;
        }
        assert(result@ =~= self.rows.rows());
        result
    }

    pub fn get_rows_amount(&self) -> (r: usize)
        ensures
            r == self.rows.data@.len(),
    {
        self.rows.len()
    }

    pub fn get_expiration_index_rows_amount(&self) -> (r: usize)
        requires
            self.wf(),
        ensures
            r == self.rows.index().len(),
    {
        self.rows.rows_with_expiration_index_len()
    }

    pub fn get_row(&self, row_key: &str) -> (r: Option<&Arc<DbRow>>)
        requires
            self.wf(),
        ensures
            match r {
                Some(row) => self.rows.row(row_key.spec_bytes()) == Some(*row),
                None => self.rows.row(row_key.spec_bytes()) is None,
            },
    {
        self.rows.get(row_key)
    }

    pub fn get_row_and_clone(&self, row_key: &str) -> (r: Option<Arc<DbRow>>)
        requires
            self.wf(),
        ensures
            r == self.rows.row(row_key.spec_bytes()),
    {
        match self.rows.get(row_key) {
            Some(row) => Some(share(row)),
            None => None,
        }
    }

    /// The bytes of the rows, in the order of the rows' keys.
    pub open spec fn payloads(&self) -> Seq<Seq<u8>> {
        self.rows.data@.map_values(|entry: (Seq<u8>, Arc<DbRow>)| entry.1.data@)
    }

    /// Writes the bytes of each row as an element of the array.
    pub fn fill_with_json_data(&self, json_array_writer: &mut JsonArrayWriter)
        requires
            old(json_array_writer).wf(),
        ensures
            final(json_array_writer).wf(),
            final(json_array_writer).elements@ == old(json_array_writer).elements@
                + self.payloads(),
    {
        let mut at: usize = 0;
        assert(self.payloads().take(0) =~= Seq::<Seq<u8>>::empty());
        while at < self.rows.data.len()
            invariant
                at <= self.rows.data@.len(),
                json_array_writer.wf(),
                json_array_writer.elements@ == old(json_array_writer).elements@
                    + self.payloads().take(at as int),
            decreases self.rows.data@.len() - at,
        {
            json_array_writer.write_raw_element(self.rows.data.value(at).data.as_slice());
            assert(self.payloads().take(at + 1) =~= self.payloads().take(at as int).push(
                self.payloads()[at as int],
            ));
            at = at + 1;
        }
        assert(self.payloads().take(at as int) =~= self.payloads());
    }

    pub fn get_highest_row_and_below(&self, row_key: &String, limit: Option<usize>) -> (r: Option<
        Vec<&Arc<DbRow>>,
    >)
        requires
            self.wf(),
        ensures
            match r {
                Some(rows) => rows@.len() > 0 && rows@.map_values(|row: &Arc<DbRow>| *row)
                    == self.rows.rows().take(self.rows.below_count(encode_utf8(row_key@), limit)),
                None => self.rows.below_count(encode_utf8(row_key@), limit) == 0,
            },
    {
        self.rows.get_highest_row_and_below(row_key, limit)
    }

    pub fn is_empty(&self) -> (r: bool)
        ensures
            r == (self.rows.data@.len() == 0),
    {
        self.rows.len() == 0
    }

    /// Notes that the partition was read at `now`.
    pub fn update_last_read_moment(&self, now: DateTimeAsMicroseconds) {
        self.last_read_moment.update(now);
    }

    /// Notes that the partition was read, where `mode` says so.
    pub fn update_last_read_moment_by(&self, mode: UpdatePartitionReadMoment) {
        if let Some(now) = mode.moment_to_note() {
            self.last_read_moment.update(now);
        }
    }

    pub fn get_last_write_moment(&self) -> (r: DateTimeAsMicroseconds)
        ensures
            r == self.last_write_moment,
    {
        self.last_write_moment
    }

    /// When the partition was last read, as far as that is noted by now.
    pub fn get_last_read_moment(&self) -> DateTimeAsMicroseconds {
        self.last_read_moment.as_date_time()
    }

    /// The later of two instants; the first where they are the same.
    pub open spec fn later(
        a: DateTimeAsMicroseconds,
        b: DateTimeAsMicroseconds,
    ) -> DateTimeAsMicroseconds {
        if a.unix_microseconds >= b.unix_microseconds {
            a
        } else {
            b
        }
    }

    /// The later of two instants.
    pub fn later_of(a: DateTimeAsMicroseconds, b: DateTimeAsMicroseconds) -> (r:
        DateTimeAsMicroseconds)
        ensures
            r == Self::later(a, b),
    {
        if a.unix_microseconds >= b.unix_microseconds {
            a
        } else {
            b
        }
    }

    /// When the partition was last read or written: the later of the two.
    /// When it was last read is known only once it has been asked, so the
    /// contract speaks of the last write alone; `later_of` says what is
    /// made of the two.
    pub fn get_last_access(&self) -> (r: DateTimeAsMicroseconds)
        ensures
            r.unix_microseconds >= self.last_write_moment.unix_microseconds,
    {
        Self::later_of(self.last_read_moment.as_date_time(), self.last_write_moment)
    }
}

} // verus!
