use std::sync::Arc;
use vstd::prelude::*;
use vstd::string::StringSliceAdditionalSpecFns;
use vstd::utf8::encode_utf8;
use crate::date_time::DateTimeAsMicroseconds;
use crate::db::db_partition::db_partition::{
    are_rows_after, index_put, index_without, is_named, rows_displaced, rows_found, rows_put,
    rows_removed, rows_without, size_of_first, size_of_row, size_of_rows,
    UpdateExpirationDateTime, UpdateExpirationTimeModel,
};
use crate::db::db_row::EXPIRES_FIELD_LEN;
use crate::db::db_partition::db_rows_container::{
    index_with_row, index_without_row, lemma_index_fits_rows, lemma_index_lacks_key,
    lemma_index_without_row_after_with,
};
use crate::db::db_partition::DbPartition;
use crate::db::db_row::{share, DbRow};
use crate::db::db_snapshots::DbTableSnapshot;
use crate::db::db_table::db_partitions_container::{
    expiration_of, index_with_name, index_without_name, lemma_changed_partition,
    DbPartitionsContainer,
};
use crate::db::db_table::db_table_attributes::DbTableAttributes;
use crate::json_writer::JsonArrayWriter;
use crate::ordered_map::{
    is_sorted, lemma_put, lemma_put_after_put, lemma_rank, lemma_total_bounds,
    lemma_total_not_more, lemma_total_put, lemma_total_take, lemma_total_update,
    lemma_total_without, lemma_value_at_place, lemma_without, lemma_without_after_put,
    number_of, put, rank, total, value_at, without, OrderedMap,
};

verus! {

/// A table: its name, its partitions, when it was last written and what
/// is laid down for it.
pub struct DbTable {
    pub name: String,
    pub partitions: DbPartitionsContainer,
    pub last_write_moment: DateTimeAsMicroseconds,
    pub attributes: DbTableAttributes,
}

/// The bytes that a partition holds.
pub open spec fn bytes_of() -> spec_fn(DbPartition) -> int {
    |partition: DbPartition| partition.content_size as int
}

/// The number of rows of a partition.
pub open spec fn rows_of() -> spec_fn(DbPartition) -> int {
    |partition: DbPartition| partition.rows.data@.len() as int
}

/// The number of rows of a partition that expire.
pub open spec fn expiring_rows_of() -> spec_fn(DbPartition) -> int {
    |partition: DbPartition| partition.rows.index().len() as int
}

/// The rows of a partition that may be there.
pub open spec fn rows_in(partition: Option<DbPartition>) -> Seq<(Seq<u8>, Arc<DbRow>)> {
    match partition {
        Some(p) => p.rows.data@,
        None => Seq::empty(),
    }
}

/// The rows that expire of a partition that may be there.
pub open spec fn index_in(partition: Option<DbPartition>) -> Seq<(i64, Arc<DbRow>)> {
    match partition {
        Some(p) => p.rows.index(),
        None => Seq::empty(),
    }
}

/// The instant that is set where one is given, and else the one before.
pub open spec fn moment_set(
    set_last_write_moment: Option<DateTimeAsMicroseconds>,
    before: DateTimeAsMicroseconds,
) -> DateTimeAsMicroseconds {
    match set_last_write_moment {
        Some(moment) => moment,
        None => before,
    }
}

/// Whether `after` is the partition `before`, or a new one where there
/// was none, with the rows and their index as given, expiring as before,
/// and written at the instant where one is given.
pub open spec fn is_partition_after(
    after: DbPartition,
    before: Option<DbPartition>,
    rows: Seq<(Seq<u8>, Arc<DbRow>)>,
    index: Seq<(i64, Arc<DbRow>)>,
    set_last_write_moment: Option<DateTimeAsMicroseconds>,
) -> bool {
    &&& after.wf()
    &&& after.rows.data@ == rows
    &&& after.rows.index() == index
    &&& after.expires == expiration_of(before)
    &&& set_last_write_moment matches Some(moment) ==> after.last_write_moment == moment
    &&& (set_last_write_moment is None && before is Some) ==> after.last_write_moment
        == before.unwrap().last_write_moment
}

/// The rows of the first `count` partitions, partition by partition.
pub open spec fn rows_of_partitions(m: Seq<(Seq<u8>, DbPartition)>, count: int) -> Seq<Arc<DbRow>>
    decreases count,
{
    if count <= 0 {
        Seq::empty()
    } else {
        rows_of_partitions(m, count - 1) + m[count - 1].1.rows.rows()
    }
}

/// The bytes of the rows of the first `count` partitions, partition by
/// partition.
pub open spec fn payloads_of_partitions(m: Seq<(Seq<u8>, DbPartition)>, count: int) -> Seq<
    Seq<u8>,
>
    decreases count,
{
    if count <= 0 {
        Seq::empty()
    } else {
        payloads_of_partitions(m, count - 1) + m[count - 1].1.payloads()
    }
}

/// Whether `after` is the table `before` after `insert_row` was asked to
/// put `row` in, and `done` what it answered: the row went into the
/// partition of its partition key if no row stood under its row key, and
/// the table changed in nothing else.
pub open spec fn is_after_insert_row(
    before: DbTable,
    after: DbTable,
    row: Arc<DbRow>,
    set_last_write_moment: Option<DateTimeAsMicroseconds>,
    done: bool,
) -> bool {
    let partition_before = before.partition(row.partition());
    &&& after.name == before.name
    &&& after.attributes == before.attributes
    &&& done == value_at(rows_in(partition_before), row.key()).is_none()
    &&& after.last_write_moment == if done {
        moment_set(set_last_write_moment, before.last_write_moment)
    } else {
        before.last_write_moment
    }
    &&& after.partition(row.partition()) matches Some(partition) && is_partition_after(
        partition,
        partition_before,
        if done {
            put(rows_in(partition_before), row.key(), row)
        } else {
            rows_in(partition_before)
        },
        if done {
            index_with_row(index_in(partition_before), row)
        } else {
            index_in(partition_before)
        },
        if done {
            set_last_write_moment
        } else {
            None
        },
    ) && after.partitions.partitions@ == put(
        before.partitions.partitions@,
        row.partition(),
        partition,
    )
    &&& after.partitions.index() == before.partitions.index()
    &&& after.table_size() == before.table_size() + if done {
        row.data@.len() as int
    } else {
        0int
    }
    &&& after.rows_amount() == before.rows_amount() + if done {
        1int
    } else {
        0int
    }
}

/// Whether `after` is the table `before` after `remove_row` was asked to
/// take the row of `row_key` out of the partition of `partition_key`, and
/// `removed` what it gave back: the row went where it was there, the
/// partition with it where that was asked for and no row was left, and the
/// table changed in nothing else.
pub open spec fn is_after_remove_row(
    before: DbTable,
    after: DbTable,
    partition_key: String,
    row_key: Seq<u8>,
    delete_empty_partition: bool,
    set_last_write_moment: Option<DateTimeAsMicroseconds>,
    removed: Option<(Arc<DbRow>, bool)>,
) -> bool {
    let partition_before = before.partition(encode_utf8(partition_key@));
    &&& after.name == before.name
    &&& after.attributes == before.attributes
    &&& match value_at(rows_in(partition_before), row_key) {
        None => {
            &&& removed is None
            &&& after.partitions.partitions@ == before.partitions.partitions@
            &&& after.partitions.index() == before.partitions.index()
            &&& after.last_write_moment == before.last_write_moment
        },
        Some(row) => {
            let rows_left = without(rows_in(partition_before), row_key);
            &&& removed == Some((row, rows_left.len() == 0))
            &&& after.last_write_moment == moment_set(
                set_last_write_moment,
                before.last_write_moment,
            )
            &&& after.table_size() == before.table_size() - row.data@.len()
            &&& after.rows_amount() == before.rows_amount() - 1
            &&& if delete_empty_partition && rows_left.len() == 0 {
                &&& after.partitions.partitions@ == without(
                    before.partitions.partitions@,
                    encode_utf8(partition_key@),
                )
                &&& after.partitions.index() == index_without_name(
                    before.partitions.index(),
                    expiration_of(partition_before),
                    partition_key,
                )
            } else {
                &&& after.partition(encode_utf8(partition_key@)) matches Some(partition)
                    && is_partition_after(
                    partition,
                    partition_before,
                    rows_left,
                    index_without_row(index_in(partition_before), Some(row)),
                    set_last_write_moment,
                ) && after.partitions.partitions@ == put(
                    before.partitions.partitions@,
                    encode_utf8(partition_key@),
                    partition,
                )
                &&& after.partitions.index() == before.partitions.index()
            }
        },
    }
}

/// The bytes of the rows of a partition.
pub open spec fn bytes_of_rows_of() -> spec_fn(DbPartition) -> int {
    |partition: DbPartition| size_of_rows(partition.rows.data@)
}

/// The bytes that a table holds are those that its partitions hold, and
/// those are the bytes of their rows. No more rows expire than there are.
pub proof fn lemma_table_size_is_bytes_of_rows(table: DbTable)
    requires
        table.wf(),
    ensures
        table.table_size() == total(table.partitions.partitions@, bytes_of()),
        table.table_size() == total(table.partitions.partitions@, bytes_of_rows_of()),
        forall|i: int|
            0 <= i < table.partitions.partitions@.len() ==> (
            #[trigger] table.partitions.partitions@[i]).1.content_size == size_of_rows(
                table.partitions.partitions@[i].1.rows.data@,
            ),
        table.expiring_rows_amount() <= table.rows_amount(),
{
    let m = table.partitions.partitions@;
    lemma_total_not_more(m, bytes_of(), bytes_of_rows_of());
    lemma_total_not_more(m, bytes_of_rows_of(), bytes_of());
    assert forall|i: int| 0 <= i < m.len() implies expiring_rows_of()((#[trigger] m[i]).1)
        <= rows_of()(m[i].1) by {
        crate::db::db_partition::db_rows_container::lemma_index_fits_rows(
            m[i].1.rows.data@,
            m[i].1.rows.index(),
        );
    }
    lemma_total_not_more(m, expiring_rows_of(), rows_of());
}

/// The expiration that is to be, where one may be given anew.
pub open spec fn expiration_after(
    update: UpdateExpirationDateTime,
    before: Option<DateTimeAsMicroseconds>,
) -> Option<DateTimeAsMicroseconds> {
    match update {
        UpdateExpirationDateTime::Yes(expires) => expires,
        UpdateExpirationDateTime::No => before,
    }
}

/// The index of the partitions once the partition of `name`, which
/// expired at `before`, was given its expiration where that was asked for.
pub open spec fn index_after_update(
    index: Seq<(i64, String)>,
    before: Option<DateTimeAsMicroseconds>,
    name: String,
    update: UpdateExpirationDateTime,
) -> Seq<(i64, String)> {
    match update {
        UpdateExpirationDateTime::Yes(expires) => index_with_name(
            index_without_name(index, before, name),
            expires,
            name,
        ),
        UpdateExpirationDateTime::No => index,
    }
}

/// Whether the update names only instants that have a text.
pub open spec fn has_texts(update: UpdateExpirationTimeModel) -> bool {
    update.update_db_rows_expiration_time matches UpdateExpirationDateTime::Yes(Some(moment))
        ==> moment.has_text()
}

/// Whether `after` is the partition `before` once a reader asked for
/// `update`: it expires as asked, the rows that `touched` names have the
/// expiration asked for, and nothing else changed.
pub open spec fn is_partition_after_update(
    after: DbPartition,
    before: DbPartition,
    touched: spec_fn(int) -> bool,
    update: UpdateExpirationTimeModel,
) -> bool {
    &&& after.wf()
    &&& after.expires == expiration_after(
        update.update_db_partition_expiration_time,
        before.expires,
    )
    &&& after.last_write_moment == before.last_write_moment
    &&& match update.update_db_rows_expiration_time {
        UpdateExpirationDateTime::Yes(expiration_time) => are_rows_after(
            after.rows.data@,
            before.rows.data@,
            touched,
            expiration_time,
        ),
        UpdateExpirationDateTime::No => after.rows.data@ == before.rows.data@
            && after.rows.index() == before.rows.index(),
    }
}

/// A row that is put into a table and taken out again leaves the bytes,
/// the number of rows, the number of rows that expire, and the rows of
/// its partition with their index as they were, where no row stood under
/// its keys before. Where the partition was not there before and empty
/// partitions are taken out, the partitions are as they were too. There
/// are as many partitions as before unless an empty partition was left
/// behind, or one that was empty before was taken out.
pub proof fn lemma_insert_then_remove(
    before: DbTable,
    between: DbTable,
    after: DbTable,
    row: Arc<DbRow>,
    delete_empty_partition: bool,
    first_moment: Option<DateTimeAsMicroseconds>,
    second_moment: Option<DateTimeAsMicroseconds>,
    done: bool,
    removed: Option<(Arc<DbRow>, bool)>,
)
    requires
        before.wf(),
        between.wf(),
        value_at(rows_in(before.partition(row.partition())), row.key()) is None,
        is_after_insert_row(before, between, row, first_moment, done),
        is_after_remove_row(
            between,
            after,
            row.partition_key,
            row.key(),
            delete_empty_partition,
            second_moment,
            removed,
        ),
    ensures
        done,
        removed matches Some(found) && found.0 == row,
        after.table_size() == before.table_size(),
        after.rows_amount() == before.rows_amount(),
        after.expiring_rows_amount() == before.expiring_rows_amount(),
        rows_in(after.partition(row.partition())) == rows_in(before.partition(row.partition())),
        index_in(after.partition(row.partition())) == index_in(before.partition(row.partition())),
        (delete_empty_partition && before.partition(row.partition()) is None)
            ==> after.partitions.partitions@ == before.partitions.partitions@,
        (if delete_empty_partition {
            before.partition(row.partition()) is None || rows_in(
                before.partition(row.partition()),
            ).len() > 0
        } else {
            before.partition(row.partition()) is Some
        }) ==> after.partitions.partitions@.len() == before.partitions.partitions@.len(),
{
    let key = row.partition();
    let m = before.partitions.partitions@;
    let rows = rows_in(before.partition(key));
    let index = index_in(before.partition(key));
    let partition = between.partition(key).unwrap();
    if let Some(p) = before.partition(key) {
        assert(p.wf()) by {
            lemma_rank(m, key);
        }
        lemma_index_lacks_key(rows, index, row.key());
        lemma_index_fits_rows(rows, index);
    }
    lemma_index_without_row_after_with(index, row);
    lemma_total_put(m, expiring_rows_of(), key, partition);
    lemma_total_put(between.partitions.partitions@, expiring_rows_of(), key, partition);
    lemma_total_without(between.partitions.partitions@, expiring_rows_of(), key);
    if let Some(left) = after.partition(key) {
        lemma_total_put(between.partitions.partitions@, expiring_rows_of(), key, left);
        lemma_put(between.partitions.partitions@, key, left);
        lemma_put_after_put(m, key, partition, left);
    }
    lemma_put(rows, row.key(), row);
    lemma_without_after_put(rows, row.key(), row);
    lemma_rank(rows, row.key());
    assert(without(rows, row.key()) == rows);
    lemma_put(m, key, partition);
    lemma_without_after_put(m, key, partition);
    lemma_rank(m, key);
    if before.partition(key) is None {
        assert(rows.len() == 0);
        assert(put(rows, row.key(), row).len() == 1);
        assert(without(m, key) == m);
    }
    let rows_between = rows_in(between.partition(key));
    assert(rows_between == put(rows, row.key(), row));
    assert(value_at(rows_between, row.key()) == Some(row));
    let rows_left = without(rows_between, row.key());
    assert(rows_left == rows);
    if delete_empty_partition && rows_left.len() == 0 {
        lemma_without(between.partitions.partitions@, key);
        assert(after.partition(key) is None);
        assert(rows =~= Seq::empty());
    }
}

/// The first row that is put into a table without partitions makes one
/// partition with one row.
pub proof fn lemma_first_row(
    before: DbTable,
    after: DbTable,
    row: Arc<DbRow>,
    set_last_write_moment: Option<DateTimeAsMicroseconds>,
    done: bool,
)
    requires
        before.wf(),
        before.partitions.partitions@.len() == 0,
        is_after_insert_row(before, after, row, set_last_write_moment, done),
    ensures
        done,
        after.partitions.partitions@.len() == 1,
        after.partition(row.partition()) matches Some(partition) && partition.rows.data@.len() == 1
            && partition.rows.row(row.key()) == Some(row),
        after.rows_amount() == 1,
        after.table_size() == row.data@.len(),
{
    let m = before.partitions.partitions@;
    lemma_rank(m, row.partition());
    let rows = rows_in(before.partition(row.partition()));
    lemma_put(rows, row.key(), row);
    lemma_rank(rows, row.key());
    assert(m =~= Seq::empty());
}

/// Where empty partitions are to be taken out, taking a row out takes its
/// partition out if and only if the row was the last of the partition.
pub proof fn lemma_remove_row_drops_empty_partition(
    before: DbTable,
    after: DbTable,
    partition_key: String,
    row_key: Seq<u8>,
    set_last_write_moment: Option<DateTimeAsMicroseconds>,
    removed: Option<(Arc<DbRow>, bool)>,
)
    requires
        before.wf(),
        removed is Some,
        is_after_remove_row(
            before,
            after,
            partition_key,
            row_key,
            true,
            set_last_write_moment,
            removed,
        ),
    ensures
        before.partition(encode_utf8(partition_key@)) matches Some(partition)
            && partition.rows.row(row_key) is Some,
        after.partition(encode_utf8(partition_key@)) is None <==> rows_in(
            before.partition(encode_utf8(partition_key@)),
        ).len() == 1,
        removed.unwrap().1 == after.partition(encode_utf8(partition_key@)).is_none(),
{
    let key = encode_utf8(partition_key@);
    let m = before.partitions.partitions@;
    let rows = rows_in(before.partition(key));
    lemma_rank(m, key);
    lemma_rank(rows, row_key);
    lemma_without(m, key);
    assert(before.partition(key).unwrap().wf());
    lemma_without(rows, row_key);
}

impl DbTable {
    /// All rows of the table, partition by partition and in each in the
    /// order of the row keys.
    pub fn get_all_rows(&self) -> (r: Vec<&Arc<DbRow>>)
        ensures
            r@.map_values(|row: &Arc<DbRow>| *row) == rows_of_partitions(
                self.partitions.partitions@,
                self.partitions.partitions@.len() as int,
            ),
    {
        let ghost m = self.partitions.partitions@;
        let mut result: Vec<&Arc<DbRow>> = Vec::new();
        let mut at: usize = 0;
        assert(result@.map_values(|row: &Arc<DbRow>| *row) =~= rows_of_partitions(m, 0));
        while at < self.partitions.len()
            invariant
                m == self.partitions.partitions@,
                at <= m.len(),
                result@.map_values(|row: &Arc<DbRow>| *row) == rows_of_partitions(m, at as int),
            decreases m.len() - at,
        {
            let mut rows = self.partitions.partitions.value(at).get_all_rows();
            let ghost before = result@;
            let ghost added = rows@;
            result.append(&mut rows);
            assert(result@.map_values(|row: &Arc<DbRow>| *row) =~= before.map_values(
                |row: &Arc<DbRow>| *row,
            ) + added.map_values(|row: &Arc<DbRow>| *row));
            at = at + 1;
        }
        result
    }

    /// The rows of the table as a JSON array, partition by partition and
    /// in each in the order of the row keys.
    pub fn get_table_as_json_array(&self) -> (r: JsonArrayWriter)
        ensures
            r.wf(),
            r.elements@ == payloads_of_partitions(
                self.partitions.partitions@,
                self.partitions.partitions@.len() as int,
            ),
    {
        let ghost m = self.partitions.partitions@;
        let mut json_array_writer = JsonArrayWriter::new();
        let mut at: usize = 0;
        assert(json_array_writer.elements@ =~= payloads_of_partitions(m, 0));
        while at < self.partitions.len()
            invariant
                m == self.partitions.partitions@,
                at <= m.len(),
                json_array_writer.wf(),
                json_array_writer.elements@ == payloads_of_partitions(m, at as int),
            decreases m.len() - at,
        {
            self.partitions.partitions.value(at).fill_with_json_data(&mut json_array_writer);
            at = at + 1;
        }
        json_array_writer
    }

    /// The rows of one partition as a JSON array; the empty array where
    /// the partition is not there.
    pub fn get_partition_as_json_array(&self, partition_key: &str) -> (r: Option<JsonArrayWriter>)
        requires
            self.wf(),
        ensures
            r matches Some(writer) && writer.wf() && writer.elements@ == match self.partition(
                partition_key.spec_bytes(),
            ) {
                Some(partition) => partition.payloads(),
                None => Seq::empty(),
            },
    {
        let mut json_array_writer = JsonArrayWriter::new();
        assert(json_array_writer.elements@ =~= Seq::empty());
        if let Some(db_partition) = self.partitions.get(partition_key) {
            db_partition.fill_with_json_data(&mut json_array_writer);
            assert(json_array_writer.elements@ =~= db_partition.payloads());
        }
        Some(json_array_writer)
    }

    /// The table as it stands, for the one who saves it.
    pub fn get_table_snapshot(&self) -> (r: DbTableSnapshot)
        requires
            self.wf(),
        ensures
            r.attr == self.attributes,
            r.last_update_time == self.last_write_moment,
            is_sorted(r.by_partition@),
            crate::db::db_snapshots::db_table_snapshot::are_snapshots_of(
                r.by_partition@,
                self.partitions.partitions@,
            ),
    {
        DbTableSnapshot::new(self.last_write_moment, self)
    }

    /// The bytes that the table holds.
    pub open spec fn table_size(&self) -> int {
        total(self.partitions.partitions@, bytes_of())
    }

    /// The number of rows of the table.
    pub open spec fn rows_amount(&self) -> int {
        total(self.partitions.partitions@, rows_of())
    }

    /// The number of rows of the table that expire.
    pub open spec fn expiring_rows_amount(&self) -> int {
        total(self.partitions.partitions@, expiring_rows_of())
    }

    /// The partition kept under a key.
    pub open spec fn partition(&self, key: Seq<u8>) -> Option<DbPartition> {
        value_at(self.partitions.partitions@, key)
    }

    /// The partitions are well-formed, and the bytes and the rows of the
    /// table can be counted.
    pub open spec fn wf(&self) -> bool {
        &&& self.partitions.wf()
        &&& self.table_size() <= usize::MAX
        &&& self.rows_amount() <= usize::MAX
    }

    /// A table without partitions, last written at the instant that the
    /// machine's clock shows.
    pub fn new(name: String, attributes: DbTableAttributes) -> (r: Self)
        ensures
            r.wf(),
            r.name == name,
            r.attributes == attributes,
            r.partitions.partitions@.len() == 0,
            r.partitions.index().len() == 0,
            r.table_size() == 0,
            r.rows_amount() == 0,
    {
        DbTable {
            name,
            partitions: DbPartitionsContainer::new(),
            last_write_moment: DateTimeAsMicroseconds::now(),
            attributes,
        }
    }

    pub fn get_partitions_amount(&self) -> (r: usize)
        ensures
            r == self.partitions.partitions@.len(),
    {
        self.partitions.len()
    }

    pub fn get_last_write_moment(&self) -> (r: DateTimeAsMicroseconds)
        ensures
            r == self.last_write_moment,
    {
        self.last_write_moment
    }

    /// The number of rows of the table.
    pub fn get_rows_amount(&self) -> (r: usize)
        requires
            self.wf(),
        ensures
            r == self.rows_amount(),
    {
        let ghost m = self.partitions.partitions@;
        let mut result: usize = 0;
        let mut at: usize = 0;
        assert(m.take(0) =~= Seq::empty());
        while at < self.partitions.len()
            invariant
                m == self.partitions.partitions@,
                at <= m.len(),
                total(m, rows_of()) <= usize::MAX,
                result == total(m.take(at as int), rows_of()),
            decreases m.len() - at,
        {
            proof {
                lemma_total_take(m, rows_of(), at as int);
                let rest = m.skip(at + 1);
                lemma_total_split(m, rows_of(), at + 1);
                lemma_total_bounds(rest, rows_of());
            }
            result = result + self.partitions.partitions.value(at).get_rows_amount();
            at = at + 1;
        }
        assert(m.take(at as int) =~= m);
        result
    }

    /// The bytes that the table holds: those of its partitions, which are
    /// those of its rows.
    pub fn get_table_size(&self) -> (r: usize)
        requires
            self.wf(),
        ensures
            r == self.table_size(),
    {
        let ghost m = self.partitions.partitions@;
        let mut result: usize = 0;
        let mut at: usize = 0;
        assert(m.take(0) =~= Seq::empty());
        while at < self.partitions.len()
            invariant
                m == self.partitions.partitions@,
                at <= m.len(),
                total(m, bytes_of()) <= usize::MAX,
                result == total(m.take(at as int), bytes_of()),
            decreases m.len() - at,
        {
            proof {
                lemma_total_take(m, bytes_of(), at as int);
                let rest = m.skip(at + 1);
                lemma_total_split(m, bytes_of(), at + 1);
                lemma_total_bounds(rest, bytes_of());
            }
            result = result + self.partitions.partitions.value(at).get_content_size();
            at = at + 1;
        }
        assert(m.take(at as int) =~= m);
        result
    }

    /// The partition of a key, to be changed where it stands. The one who
    /// changes it sees to it that it stays well-formed, expires as before
    /// and holds as many rows and bytes as before.
    pub fn get_partition_mut(&mut self, partition_key: &str) -> (r: Option<&mut DbPartition>)
        requires
            old(self).wf(),
        ensures
            final(self).name == old(self).name,
            final(self).attributes == old(self).attributes,
            final(self).last_write_moment == old(self).last_write_moment,
            final(self).partitions.partitions_to_expire_index
                == old(self).partitions.partitions_to_expire_index,
            match r {
                Some(partition) => old(self).partition(partition_key.spec_bytes()) == Some(
                    *partition,
                ) && final(self).partitions.partitions@ == put(
                    old(self).partitions.partitions@,
                    partition_key.spec_bytes(),
                    *final(partition),
                ),
                None => old(self).partition(partition_key.spec_bytes()) is None
                    && final(self).partitions.partitions@ == old(self).partitions.partitions@,
            },
    {
        self.partitions.get_mut(partition_key)
    }

    pub fn get_partition(&self, partition_key: &str) -> (r: Option<&DbPartition>)
        requires
            self.wf(),
        ensures
            match r {
                Some(partition) => self.partition(partition_key.spec_bytes()) == Some(*partition),
                None => self.partition(partition_key.spec_bytes()) is None,
            },
    {
        self.partitions.get(partition_key)
    }

    /// All partitions, in the order of their keys.
    pub fn get_partitions(&self) -> (r: Vec<&DbPartition>)
        ensures
            r@.len() == self.partitions.partitions@.len(),
            forall|i: int|
                0 <= i < r@.len() ==> *(#[trigger] r@[i]) == self.partitions.partitions@[i].1,
    {
        self.partitions.get_partitions()
    }

    /// Puts the row into the partition of its partition key, in place of
    /// the row that stood under its row key, and gives that one back. The
    /// partition is made where there is none.
    pub fn insert_or_replace_row(
        &mut self,
        db_row: &Arc<DbRow>,
        set_last_write_moment: Option<DateTimeAsMicroseconds>,
    ) -> (r: Option<Arc<DbRow>>)
        requires
            old(self).wf(),
            db_row.wf(),
            old(self).table_size() + db_row.data@.len() <= usize::MAX,
            old(self).rows_amount() + 1 <= usize::MAX,
        ensures
            final(self).wf(),
            final(self).name == old(self).name,
            final(self).attributes == old(self).attributes,
            final(self).last_write_moment == moment_set(
                set_last_write_moment,
                old(self).last_write_moment,
            ),
            r == value_at(rows_in(old(self).partition(db_row.partition())), db_row.key()),
            final(self).partition(db_row.partition()) matches Some(after) && is_partition_after(
                after,
                old(self).partition(db_row.partition()),
                put(rows_in(old(self).partition(db_row.partition())), db_row.key(), *db_row),
                index_with_row(
                    index_without_row(index_in(old(self).partition(db_row.partition())), r),
                    *db_row,
                ),
                set_last_write_moment,
            ) && final(self).partitions.partitions@ == put(
                old(self).partitions.partitions@,
                db_row.partition(),
                after,
            ),
            final(self).partitions.index() == old(self).partitions.index(),
            final(self).table_size() == old(self).table_size() + db_row.data@.len() - size_of_row(
                r,
            ),
            final(self).rows_amount() == old(self).rows_amount() + if r is None {
                1int
            } else {
                0int
            },
    {
        let ghost m = self.partitions.partitions@;
        let ghost key = db_row.partition();
        if let Some(moment) = set_last_write_moment {
            self.last_write_moment = moment;
        }
        let (at, found) = self.partitions.find(db_row.partition_key.as_str());
        if !found {
            let mut db_partition = DbPartition::new();
            proof {
                lemma_total_bounds(m, bytes_of());
                assert(db_partition.rows.data@ =~= Seq::empty());
                assert(db_partition.rows.index() =~= Seq::empty());
            }
            db_partition.insert_or_replace_row(share(db_row));
            if let Some(moment) = set_last_write_moment {
                db_partition.last_write_moment = moment;
            }
            proof {
                lemma_total_put(m, bytes_of(), key, db_partition);
                lemma_total_put(m, rows_of(), key, db_partition);
                lemma_put(m, key, db_partition);
                assert(Seq::<(Seq<u8>, Arc<DbRow>)>::empty().insert(0, (db_row.key(), *db_row)).len() == 1);
            }
            self.partitions.insert(&db_row.partition_key, db_partition);
            return None;
        }
        proof {
            lemma_total_bounds(m, bytes_of());
            lemma_value_at_place(m, at as int);
        }
        let db_partition = self.partitions.partition_mut(at);
        let removed_db_row = db_partition.insert_or_replace_row(share(db_row));
        if let Some(moment) = set_last_write_moment {
            db_partition.last_write_moment = moment;
        }
        proof {
            let after = self.partitions.partitions@[at as int].1;
            assert(m[at as int].0 == key);
            assert(self.partitions.partitions@ == m.update(at as int, (key, after)));
            lemma_changed_partition(m, old(self).partitions.index(), at as int, after);
            lemma_put(m, key, after);
            lemma_total_put(m, bytes_of(), key, after);
            lemma_total_put(m, rows_of(), key, after);
            lemma_put(m[at as int].1.rows.data@, db_row.key(), *db_row);
            assert(self.partition(key) == Some(after));
            assert(old(self).partition(key) == Some(m[at as int].1));
            assert(is_partition_after(
                after,
                old(self).partition(key),
                put(rows_in(old(self).partition(key)), db_row.key(), *db_row),
                index_with_row(
                    index_without_row(index_in(old(self).partition(key)), removed_db_row),
                    *db_row,
                ),
                set_last_write_moment,
            ));
        }
        removed_db_row
    }

    /// The place of the partition of a key; a partition without rows is
    /// made where there is none.
    fn place_for_write(&mut self, partition_key: &String) -> (at: usize)
        requires
            old(self).wf(),
        ensures
            final(self).wf(),
            final(self).name == old(self).name,
            final(self).attributes == old(self).attributes,
            final(self).last_write_moment == old(self).last_write_moment,
            final(self).partitions.index() == old(self).partitions.index(),
            final(self).table_size() == old(self).table_size(),
            final(self).rows_amount() == old(self).rows_amount(),
            at < final(self).partitions.partitions@.len(),
            at == rank(final(self).partitions.partitions@, encode_utf8(partition_key@)),
            final(self).partitions.partitions@[at as int].0 == encode_utf8(partition_key@),
            rows_in(Some(final(self).partitions.partitions@[at as int].1)) == rows_in(
                old(self).partition(encode_utf8(partition_key@)),
            ),
            index_in(Some(final(self).partitions.partitions@[at as int].1)) == index_in(
                old(self).partition(encode_utf8(partition_key@)),
            ),
            final(self).partitions.partitions@[at as int].1.expires == expiration_of(
                old(self).partition(encode_utf8(partition_key@)),
            ),
            final(self).partitions.partitions@ == put(
                old(self).partitions.partitions@,
                encode_utf8(partition_key@),
                final(self).partitions.partitions@[at as int].1,
            ),
            old(self).partition(encode_utf8(partition_key@)) matches Some(before)
                ==> final(self).partitions.partitions@[at as int].1 == before,
    {
        let ghost m = self.partitions.partitions@;
        let ghost key = encode_utf8(partition_key@);
        let (at, found) = self.partitions.find(partition_key.as_str());
        proof {
            lemma_rank(m, key);
        }
        if found {
            proof {
                assert(m =~= put(m, key, m[at as int].1));
            }
            return at;
        }
        let db_partition = DbPartition::new();
        proof {
            assert(db_partition.rows.data@ =~= Seq::empty());
            assert(db_partition.rows.index() =~= Seq::empty());
            lemma_total_put(m, bytes_of(), key, db_partition);
            lemma_total_put(m, rows_of(), key, db_partition);
            lemma_put(m, key, db_partition);
        }
        self.partitions.insert(partition_key, db_partition);
        at
    }

    /// Puts the row into the partition of its partition key where no row
    /// stands under its row key, and tells whether it did. The partition
    /// is made where there is none.
    pub fn insert_row(
        &mut self,
        db_row: &Arc<DbRow>,
        set_last_write_moment: Option<DateTimeAsMicroseconds>,
    ) -> (r: bool)
        requires
            old(self).wf(),
            db_row.wf(),
            old(self).table_size() + db_row.data@.len() <= usize::MAX,
            old(self).rows_amount() + 1 <= usize::MAX,
        ensures
            final(self).wf(),
            is_after_insert_row(*old(self), *final(self), *db_row, set_last_write_moment, r),
    {
        let ghost key = db_row.partition();
        let at = self.place_for_write(&db_row.partition_key);
        let ghost m = self.partitions.partitions@;
        let ghost index = self.partitions.index();
        proof {
            lemma_total_bounds(m, bytes_of());
        }
        let db_partition = self.partitions.partition_mut(at);
        let result = db_partition.insert_row(share(db_row));
        if result {
            if let Some(moment) = set_last_write_moment {
                db_partition.last_write_moment = moment;
            }
        }
        proof {
            let after = self.partitions.partitions@[at as int].1;
            assert(self.partitions.partitions@ == m.update(at as int, (key, after)));
            lemma_changed_partition(m, index, at as int, after);
            lemma_put(m, key, after);
            lemma_total_put(m, bytes_of(), key, after);
            lemma_total_put(m, rows_of(), key, after);
            lemma_put(m[at as int].1.rows.data@, db_row.key(), *db_row);
            lemma_value_at_place(m, at as int);
            crate::ordered_map::lemma_put_after_put(
                old(self).partitions.partitions@,
                key,
                m[at as int].1,
                after,
            );
        }
        if result {
            if let Some(moment) = set_last_write_moment {
                self.last_write_moment = moment;
            }
        }
        result
    }

    /// Puts the rows into the partition of the key, one after the other,
    /// each in place of the row that stood under its row key; gives back
    /// the rows that lost their place, or `None` where none did. The
    /// partition is made where there is none.
    pub fn bulk_insert_or_replace(
        &mut self,
        partition_key: &String,
        db_rows: &[Arc<DbRow>],
        set_last_write_moment: Option<DateTimeAsMicroseconds>,
    ) -> (r: Option<Vec<Arc<DbRow>>>)
        requires
            old(self).wf(),
            forall|i: int| 0 <= i < db_rows@.len() ==> (#[trigger] db_rows@[i]).wf(),
            old(self).table_size() + size_of_first(db_rows@, db_rows@.len() as int) <= usize::MAX,
            old(self).rows_amount() + db_rows@.len() <= usize::MAX,
        ensures
            final(self).wf(),
            final(self).name == old(self).name,
            final(self).attributes == old(self).attributes,
            final(self).last_write_moment == moment_set(
                set_last_write_moment,
                old(self).last_write_moment,
            ),
            final(self).partition(encode_utf8(partition_key@)) matches Some(after)
                && is_partition_after(
                after,
                old(self).partition(encode_utf8(partition_key@)),
                rows_put(
                    rows_in(old(self).partition(encode_utf8(partition_key@))),
                    db_rows@,
                    db_rows@.len() as int,
                ),
                index_put(
                    rows_in(old(self).partition(encode_utf8(partition_key@))),
                    index_in(old(self).partition(encode_utf8(partition_key@))),
                    db_rows@,
                    db_rows@.len() as int,
                ),
                set_last_write_moment,
            ) && final(self).partitions.partitions@ == put(
                old(self).partitions.partitions@,
                encode_utf8(partition_key@),
                after,
            ) && final(self).table_size() == old(self).table_size() + after.content_size
                - number_of(old(self).partition(encode_utf8(partition_key@)), bytes_of())
                && final(self).rows_amount() == old(self).rows_amount() + after.rows.data@.len()
                - number_of(old(self).partition(encode_utf8(partition_key@)), rows_of()),
            final(self).partitions.index() == old(self).partitions.index(),
            match r {
                Some(rows) => rows@.len() > 0 && rows@ == rows_displaced(
                    rows_in(old(self).partition(encode_utf8(partition_key@))),
                    db_rows@,
                    db_rows@.len() as int,
                ),
                None => rows_displaced(
                    rows_in(old(self).partition(encode_utf8(partition_key@))),
                    db_rows@,
                    db_rows@.len() as int,
                ).len() == 0,
            },
    {
        let ghost key = encode_utf8(partition_key@);
        let at = self.place_for_write(partition_key);
        let ghost m = self.partitions.partitions@;
        let ghost index = self.partitions.index();
        proof {
            lemma_total_bounds(m, bytes_of());
            lemma_total_bounds(m, rows_of());
        }
        let db_partition = self.partitions.partition_mut(at);
        let result = db_partition.insert_or_replace_rows_bulk(db_rows);
        if let Some(moment) = set_last_write_moment {
            db_partition.last_write_moment = moment;
        }
        proof {
            let after = self.partitions.partitions@[at as int].1;
            assert(self.partitions.partitions@ == m.update(at as int, (key, after)));
            lemma_changed_partition(m, index, at as int, after);
            lemma_put(m, key, after);
            lemma_total_put(m, bytes_of(), key, after);
            lemma_total_put(m, rows_of(), key, after);
            lemma_value_at_place(m, at as int);
            crate::ordered_map::lemma_put_after_put(
                old(self).partitions.partitions@,
                key,
                m[at as int].1,
                after,
            );
            lemma_total_put(old(self).partitions.partitions@, bytes_of(), key, after);
            lemma_total_put(old(self).partitions.partitions@, rows_of(), key, after);
            lemma_total_put(old(self).partitions.partitions@, bytes_of(), key, m[at as int].1);
            lemma_total_put(old(self).partitions.partitions@, rows_of(), key, m[at as int].1);
        }
        if let Some(moment) = set_last_write_moment {
            self.last_write_moment = moment;
        }
        result
    }

    /// Puts a whole partition under the key, in place of the one that was
    /// there.
    pub fn init_partition(&mut self, partition_key: String, db_partition: DbPartition)
        requires
            old(self).wf(),
            db_partition.wf(),
            old(self).table_size() + db_partition.content_size <= usize::MAX,
            old(self).rows_amount() + db_partition.rows.data@.len() <= usize::MAX,
        ensures
            final(self).wf(),
            final(self).name == old(self).name,
            final(self).attributes == old(self).attributes,
            final(self).last_write_moment == old(self).last_write_moment,
            final(self).partitions.partitions@ == put(
                old(self).partitions.partitions@,
                encode_utf8(partition_key@),
                db_partition,
            ),
            final(self).partitions.index() == index_with_name(
                index_without_name(
                    old(self).partitions.index(),
                    expiration_of(old(self).partition(encode_utf8(partition_key@))),
                    partition_key,
                ),
                db_partition.expires,
                partition_key,
            ),
            final(self).table_size() == old(self).table_size() + db_partition.content_size
                - number_of(old(self).partition(encode_utf8(partition_key@)), bytes_of()),
            final(self).rows_amount() == old(self).rows_amount() + db_partition.rows.data@.len()
                - number_of(old(self).partition(encode_utf8(partition_key@)), rows_of()),
    {
        proof {
            let m = self.partitions.partitions@;
            lemma_total_put(m, bytes_of(), encode_utf8(partition_key@), db_partition);
            lemma_total_put(m, rows_of(), encode_utf8(partition_key@), db_partition);
            lemma_total_bounds(m, bytes_of());
            lemma_total_bounds(m, rows_of());
            lemma_rank(m, encode_utf8(partition_key@));
        }
        self.partitions.insert(&partition_key, db_partition);
    }

    /// Takes the row out of the partition, and the partition out of the
    /// table where that is asked for and the partition has no row left.
    /// Gives back the row and whether the partition has no row left; `None`
    /// where the partition or the row is not there.
    pub fn remove_row(
        &mut self,
        partition_key: &String,
        row_key: &str,
        delete_empty_partition: bool,
        set_last_write_moment: Option<DateTimeAsMicroseconds>,
    ) -> (r: Option<(Arc<DbRow>, bool)>)
        requires
            old(self).wf(),
        ensures
            final(self).wf(),
            is_after_remove_row(
                *old(self),
                *final(self),
                *partition_key,
                row_key.spec_bytes(),
                delete_empty_partition,
                set_last_write_moment,
                r,
            ),
    {
        let ghost key = encode_utf8(partition_key@);
        let ghost m = self.partitions.partitions@;
        let ghost index = self.partitions.index();
        let (at, found) = self.partitions.find(partition_key.as_str());
        proof {
            lemma_rank(m, key);
        }
        if !found {
            return None;
        }
        if !self.partitions.partitions.value(at).rows.has_db_row(row_key) {
            return None;
        }
        let db_partition = self.partitions.partition_mut(at);
        let removed_row = match db_partition.remove_row(row_key) {
            Some(row) => row,
            None => {
                return None;
            },
        };
        if let Some(moment) = set_last_write_moment {
            db_partition.last_write_moment = moment;
        }
        let partition_is_empty = db_partition.is_empty();
        proof {
            let after = self.partitions.partitions@[at as int].1;
            assert(self.partitions.partitions@ == m.update(at as int, (key, after)));
            lemma_changed_partition(m, index, at as int, after);
            lemma_put(m, key, after);
            lemma_total_put(m, bytes_of(), key, after);
            lemma_total_put(m, rows_of(), key, after);
            lemma_total_without(put(m, key, after), bytes_of(), key);
            lemma_total_without(put(m, key, after), rows_of(), key);
            lemma_total_bounds(put(m, key, after), bytes_of());
            lemma_total_bounds(put(m, key, after), rows_of());
            lemma_without_after_put(m, key, after);
            lemma_without(m[at as int].1.rows.data@, row_key.spec_bytes());
            crate::ordered_map::lemma_rank(m[at as int].1.rows.data@, row_key.spec_bytes());
        }
        if let Some(moment) = set_last_write_moment {
            self.last_write_moment = moment;
        }
        if delete_empty_partition && partition_is_empty {
            self.partitions.remove(partition_key);
        }
        Some((removed_row, partition_is_empty))
    }

    /// Takes the rows out of the partition, one after the other, and the
    /// partition out of the table where that is asked for and the
    /// partition has no row left. Gives back the rows that were found and
    /// whether the partition has no row left; `None` where the partition is
    /// not there or none of the rows was found.
    pub fn bulk_remove_rows(
        &mut self,
        partition_key: &String,
        row_keys: &[String],
        delete_empty_partition: bool,
        set_last_write_moment: Option<DateTimeAsMicroseconds>,
    ) -> (r: Option<(Vec<Arc<DbRow>>, bool)>)
        requires
            old(self).wf(),
        ensures
            final(self).wf(),
            final(self).name == old(self).name,
            final(self).attributes == old(self).attributes,
            match old(self).partition(encode_utf8(partition_key@)) {
                None => {
                    &&& r is None
                    &&& final(self).partitions.partitions@ == old(self).partitions.partitions@
                    &&& final(self).partitions.index() == old(self).partitions.index()
                    &&& final(self).last_write_moment == old(self).last_write_moment
                },
                Some(before) => {
                    let count = row_keys@.len() as int;
                    let removed = rows_removed(before.rows.data@, row_keys@, count);
                    let rows_left = rows_without(before.rows.data@, row_keys@, count);
                    let index_left = index_without(
                        before.rows.data@,
                        before.rows.index(),
                        row_keys@,
                        count,
                    );
                    let moment = if removed.len() == 0 {
                        None
                    } else {
                        set_last_write_moment
                    };
                    &&& match r {
                        Some(found) => removed.len() > 0 && found.0@ == removed && found.1 == (
                        rows_left.len() == 0),
                        None => removed.len() == 0,
                    }
                    &&& final(self).last_write_moment == moment_set(
                        moment,
                        old(self).last_write_moment,
                    )
                    &&& if removed.len() > 0 && delete_empty_partition && rows_left.len() == 0 {
                        &&& final(self).partitions.partitions@ == without(
                            old(self).partitions.partitions@,
                            encode_utf8(partition_key@),
                        )
                        &&& final(self).partitions.index() == index_without_name(
                            old(self).partitions.index(),
                            before.expires,
                            *partition_key,
                        )
                        &&& final(self).table_size() == old(self).table_size()
                            - before.content_size
                        &&& final(self).rows_amount() == old(self).rows_amount()
                            - before.rows.data@.len()
                    } else {
                        &&& final(self).partition(encode_utf8(partition_key@)) matches Some(after)
                            && is_partition_after(
                            after,
                            Some(before),
                            rows_left,
                            index_left,
                            moment,
                        ) && final(self).partitions.partitions@ == put(
                            old(self).partitions.partitions@,
                            encode_utf8(partition_key@),
                            after,
                        ) && final(self).table_size() == old(self).table_size()
                            + after.content_size - before.content_size
                            && final(self).rows_amount() == old(self).rows_amount()
                            + rows_left.len() - before.rows.data@.len()
                        &&& final(self).partitions.index() == old(self).partitions.index()
                    }
                },
            },
    {
        let ghost key = encode_utf8(partition_key@);
        let ghost m = self.partitions.partitions@;
        let ghost index = self.partitions.index();
        let (at, found) = self.partitions.find(partition_key.as_str());
        proof {
            lemma_rank(m, key);
        }
        if !found {
            return None;
        }
        let db_partition = self.partitions.partition_mut(at);
        let removed_rows = db_partition.remove_rows_bulk(row_keys);
        let removed_rows = match removed_rows {
            Some(rows) => rows,
            None => {
                proof {
                    let after = self.partitions.partitions@[at as int].1;
                    assert(self.partitions.partitions@ == m.update(at as int, (key, after)));
                    lemma_changed_partition(m, index, at as int, after);
                    lemma_put(m, key, after);
                    lemma_total_put(m, bytes_of(), key, after);
                    lemma_total_put(m, rows_of(), key, after);
                    lemma_total_bounds(m, bytes_of());
                    lemma_total_bounds(m, rows_of());
                }
                return None;
            },
        };
        if let Some(moment) = set_last_write_moment {
            db_partition.last_write_moment = moment;
        }
        let partition_is_empty = db_partition.is_empty();
        proof {
            let after = self.partitions.partitions@[at as int].1;
            assert(self.partitions.partitions@ == m.update(at as int, (key, after)));
            lemma_changed_partition(m, index, at as int, after);
            lemma_put(m, key, after);
            lemma_total_put(m, bytes_of(), key, after);
            lemma_total_put(m, rows_of(), key, after);
            lemma_total_without(put(m, key, after), bytes_of(), key);
            lemma_total_without(put(m, key, after), rows_of(), key);
            lemma_total_bounds(m, bytes_of());
            lemma_total_bounds(m, rows_of());
            lemma_total_bounds(put(m, key, after), bytes_of());
            lemma_total_bounds(put(m, key, after), rows_of());
            lemma_without_after_put(m, key, after);
        }
        if let Some(moment) = set_last_write_moment {
            self.last_write_moment = moment;
        }
        if delete_empty_partition && partition_is_empty {
            self.partitions.remove(partition_key);
        }
        Some((removed_rows, partition_is_empty))
    }

    /// The rows of the partition that stand under the keys, in the order
    /// of the keys, as they stand; `None` where the partition is not there
    /// or none of the rows is. Where that is asked for, the partition and
    /// each of the rows are then given their expirations.
    pub fn get_rows_and_update_expiration_time(
        &mut self,
        partition_key: &String,
        row_keys: &[String],
        update_expiration_time: &UpdateExpirationTimeModel,
    ) -> (r: Option<Vec<Arc<DbRow>>>)
        requires
            old(self).wf(),
            has_texts(*update_expiration_time),
            old(self).table_size() + EXPIRES_FIELD_LEN * row_keys@.len() <= usize::MAX,
        ensures
            final(self).wf(),
            final(self).name == old(self).name,
            final(self).attributes == old(self).attributes,
            final(self).last_write_moment == old(self).last_write_moment,
            final(self).rows_amount() == old(self).rows_amount(),
            final(self).table_size() <= old(self).table_size() + EXPIRES_FIELD_LEN
                * row_keys@.len(),
            match old(self).partition(encode_utf8(partition_key@)) {
                None => r is None && final(self).partitions.partitions@ == old(self).partitions.partitions@
                    && final(self).partitions.index() == old(self).partitions.index(),
                Some(before) => {
                    &&& final(self).partition(encode_utf8(partition_key@)) matches Some(after)
                        && is_partition_after_update(
                        after,
                        before,
                        |place: int|
                            is_named(
                                before.rows.data@,
                                row_keys@,
                                row_keys@.len() as int,
                                place,
                            ),
                        *update_expiration_time,
                    ) && final(self).partitions.partitions@ == put(
                        old(self).partitions.partitions@,
                        encode_utf8(partition_key@),
                        after,
                    )
                    &&& final(self).partitions.index() == index_after_update(
                        old(self).partitions.index(),
                        before.expires,
                        *partition_key,
                        update_expiration_time.update_db_partition_expiration_time,
                    )
                    &&& match r {
                        Some(rows) => rows@.len() > 0 && rows@ == rows_found(
                            before.rows.data@,
                            row_keys@,
                            row_keys@.len() as int,
                        ),
                        None => rows_found(
                            before.rows.data@,
                            row_keys@,
                            row_keys@.len() as int,
                        ).len() == 0,
                    }
                },
            },
    {
        let ghost m = self.partitions.partitions@;
        let ghost key = encode_utf8(partition_key@);
        proof {
            lemma_rank(m, key);
            lemma_total_bounds(m, bytes_of());
            lemma_total_bounds(m, rows_of());
        }
        if !self.partitions.has_partition(partition_key.as_str()) {
            return None;
        }
        let ghost before = m[rank(m, key)].1;
        if let UpdateExpirationDateTime::Yes(expires) =
            update_expiration_time.update_db_partition_expiration_time {
            self.partitions.update_partition_expiration_time(partition_key, expires);
        } else {
            proof {
                assert(m =~= put(m, key, before));
            }
        }
        let ghost first = DbPartition {
            expires: expiration_after(
                update_expiration_time.update_db_partition_expiration_time,
                before.expires,
            ),
            ..before
        };
        let ghost m1 = self.partitions.partitions@;
        let ghost index1 = self.partitions.index();
        proof {
            lemma_put(m, key, first);
            assert(m1 == put(m, key, first)) by {
                if update_expiration_time.update_db_partition_expiration_time
                    is No {
                    assert(first == before);
                }
            }
        }
        let (at, found) = self.partitions.find(partition_key.as_str());
        let db_partition = self.partitions.partition_mut(at);
        let result = db_partition.get_rows_and_update_expiration_time(
            row_keys,
            update_expiration_time.update_db_rows_expiration_time,
        );
        proof {
            let after = self.partitions.partitions@[at as int].1;
            assert(self.partitions.partitions@ == m1.update(at as int, (key, after)));
            lemma_changed_partition(m1, index1, at as int, after);
            lemma_put_after_put(m, key, first, after);
            lemma_put(m, key, after);
            lemma_total_put(m, bytes_of(), key, after);
            lemma_total_put(m, rows_of(), key, after);
        }
        result
    }

    /// All rows of the table, partition by partition and in each in the
    /// order of the row keys, as they stand. Where that is asked for, each
    /// partition and each row are then given their expirations.
    pub fn get_all_rows_and_update_expiration_time(
        &mut self,
        update_expiration_time: &UpdateExpirationTimeModel,
    ) -> (r: Vec<Arc<DbRow>>)
        requires
            old(self).wf(),
            has_texts(*update_expiration_time),
            old(self).table_size() + EXPIRES_FIELD_LEN * old(self).rows_amount() <= usize::MAX,
        ensures
            final(self).wf(),
            final(self).name == old(self).name,
            final(self).attributes == old(self).attributes,
            final(self).last_write_moment == old(self).last_write_moment,
            final(self).rows_amount() == old(self).rows_amount(),
            final(self).table_size() <= old(self).table_size() + EXPIRES_FIELD_LEN
                * old(self).rows_amount(),
            r@ == rows_of_partitions(
                old(self).partitions.partitions@,
                old(self).partitions.partitions@.len() as int,
            ),
            final(self).partitions.partitions@.len() == old(self).partitions.partitions@.len(),
            forall|i: int|
                0 <= i < final(self).partitions.partitions@.len() ==> (
                #[trigger] final(self).partitions.partitions@[i]).0 == old(self).partitions.partitions@[i].0
                    && is_partition_after_update(
                    final(self).partitions.partitions@[i].1,
                    old(self).partitions.partitions@[i].1,
                    |place: int| true,
                    *update_expiration_time,
                ),
    {
        let ghost m = self.partitions.partitions@;
        let mut result: Vec<Arc<DbRow>> = Vec::new();
        let mut at: usize = 0;
        proof {
            lemma_total_split(m, rows_of(), 0);
            lemma_total_split(m, bytes_of(), 0);
            assert(m.take(0) =~= Seq::empty());
            assert(result@ =~= rows_of_partitions(m, 0));
        }
        while at < self.partitions.len()
            invariant
                m == old(self).partitions.partitions@,
                self.partitions.wf(),
                self.name == old(self).name,
                self.attributes == old(self).attributes,
                self.last_write_moment == old(self).last_write_moment,
                has_texts(*update_expiration_time),
                at <= m.len(),
                self.partitions.partitions@.len() == m.len(),
                self.rows_amount() == total(m, rows_of()),
                total(m, rows_of()) <= usize::MAX,
                self.table_size() + EXPIRES_FIELD_LEN * total(m.skip(at as int), rows_of())
                    <= total(m, bytes_of()) + EXPIRES_FIELD_LEN * total(m, rows_of()),
                total(m, bytes_of()) + EXPIRES_FIELD_LEN * total(m, rows_of()) <= usize::MAX,
                result@ == rows_of_partitions(m, at as int),
                forall|i: int|
                    0 <= i < m.len() ==> (#[trigger] self.partitions.partitions@[i]).0 == m[i].0,
                forall|i: int|
                    0 <= i < at ==> is_partition_after_update(
                        (#[trigger] self.partitions.partitions@[i]).1,
                        m[i].1,
                        |place: int| true,
                        *update_expiration_time,
                    ),
                forall|i: int|
                    at <= i < m.len() ==> (#[trigger] self.partitions.partitions@[i]).1 == m[i].1,
            decreases m.len() - at,
        {
            let ghost cur = self.partitions.partitions@;
            let ghost key = m[at as int].0;
            let partition_key = self.partitions.partitions.key(at).clone();
            proof {
                lemma_value_at_place(cur, at as int);
                lemma_total_bounds(cur, bytes_of());
                lemma_total_bounds(m.skip(at as int), rows_of());
                lemma_total_bounds(m.skip(at + 1), rows_of());
                lemma_skip_first(m, rows_of(), at as int);
            }
            if let UpdateExpirationDateTime::Yes(expires) =
                update_expiration_time.update_db_partition_expiration_time {
                self.partitions.update_partition_expiration_time(&partition_key, expires);
            }
            let ghost first = DbPartition {
                expires: expiration_after(
                    update_expiration_time.update_db_partition_expiration_time,
                    cur[at as int].1.expires,
                ),
                ..cur[at as int].1
            };
            let ghost cur1 = self.partitions.partitions@;
            let ghost index1 = self.partitions.index();
            proof {
                assert(cur1 =~= cur.update(at as int, (key, first))) by {
                    if update_expiration_time.update_db_partition_expiration_time is No {
                        assert(first == cur[at as int].1);
                    }
                }
            }
            let db_partition = self.partitions.partition_mut(at);
            let mut rows = db_partition.get_all_rows_and_update_expiration_time(
                update_expiration_time.update_db_rows_expiration_time,
            );
            let ghost before = result@;
            let ghost added = rows@;
            result.append(&mut rows);
            proof {
                let after = self.partitions.partitions@[at as int].1;
                let now = self.partitions.partitions@;
                assert(now == cur1.update(at as int, (key, after)));
                lemma_changed_partition(cur1, index1, at as int, after);
                assert(now =~= cur.update(at as int, (key, after)));
                lemma_total_update(cur, bytes_of(), at as int, (key, after));
                lemma_total_update(cur, rows_of(), at as int, (key, after));
                assert(result@ =~= before + added);
                assert forall|i: int| 0 <= i < m.len() implies (#[trigger] now[i]).0 == m[i].0 by {
                    assert(cur[i].0 == m[i].0);
                }
                assert forall|i: int| 0 <= i < at + 1 implies is_partition_after_update(
                    (#[trigger] now[i]).1,
                    m[i].1,
                    |place: int| true,
                    *update_expiration_time,
                ) by {
                    if i < at {
                        assert(now[i] == cur[i]);
                    }
                }
                assert forall|i: int| at + 1 <= i < m.len() implies (#[trigger] now[i]).1
                    == m[i].1 by {
                    assert(now[i] == cur[i]);
                }
            }
            at = at + 1;
        }
        proof {
            assert(m.skip(m.len() as int) =~= Seq::empty());
            lemma_total_bounds(self.partitions.partitions@, bytes_of());
        }
        result
    }

    /// Takes the partition out of the table and gives it back.
    pub fn remove_partition(
        &mut self,
        partition_key: &String,
        set_last_write_moment: Option<DateTimeAsMicroseconds>,
    ) -> (r: Option<DbPartition>)
        requires
            old(self).wf(),
        ensures
            final(self).wf(),
            final(self).name == old(self).name,
            final(self).attributes == old(self).attributes,
            r == old(self).partition(encode_utf8(partition_key@)),
            r matches Some(partition) ==> partition.wf(),
            final(self).last_write_moment == if r is Some {
                moment_set(set_last_write_moment, old(self).last_write_moment)
            } else {
                old(self).last_write_moment
            },
            final(self).partitions.partitions@ == without(
                old(self).partitions.partitions@,
                encode_utf8(partition_key@),
            ),
            final(self).partitions.index() == index_without_name(
                old(self).partitions.index(),
                expiration_of(r),
                *partition_key,
            ),
            final(self).table_size() == old(self).table_size() - number_of(r, bytes_of()),
            final(self).rows_amount() == old(self).rows_amount() - number_of(r, rows_of()),
    {
        proof {
            let m = self.partitions.partitions@;
            lemma_total_without(m, bytes_of(), encode_utf8(partition_key@));
            lemma_total_without(m, rows_of(), encode_utf8(partition_key@));
            lemma_total_bounds(m, bytes_of());
            lemma_total_bounds(m, rows_of());
            lemma_rank(m, encode_utf8(partition_key@));
        }
        let removed_partition = self.partitions.remove(partition_key);
        if removed_partition.is_some() {
            if let Some(moment) = set_last_write_moment {
                self.last_write_moment = moment;
            }
        }
        removed_partition
    }

    /// Takes all partitions out of the table and gives them back; `None`
    /// where there was none.
    pub fn clear_table(&mut self) -> (r: Option<OrderedMap<DbPartition>>)
        requires
            old(self).wf(),
        ensures
            final(self).wf(),
            final(self).name == old(self).name,
            final(self).attributes == old(self).attributes,
            final(self).last_write_moment == old(self).last_write_moment,
            final(self).partitions.partitions@.len() == 0,
            final(self).partitions.index().len() == 0,
            final(self).table_size() == 0,
            final(self).rows_amount() == 0,
            match r {
                Some(partitions) => partitions@ == old(self).partitions.partitions@
                    && partitions@.len() > 0,
                None => old(self).partitions.partitions@.len() == 0,
            },
    {
        self.partitions.clear()
    }
}

/// The sum from a place on is the number at the place and the sum behind
/// it.
pub proof fn lemma_skip_first<V>(m: Seq<(Seq<u8>, V)>, of: spec_fn(V) -> int, from: int)
    requires
        0 <= from < m.len(),
    ensures
        total(m.skip(from), of) == of(m[from].1) + total(m.skip(from + 1), of),
{
    let rest = m.skip(from);
    let first = rest.take(1);
    lemma_total_split(rest, of, 1);
    assert(first.len() == 1);
    assert(first.drop_last() =~= Seq::empty());
    assert(total(first.drop_last(), of) == 0);
    assert(first.last() == m[from]);
    assert(total(first, of) == total(first.drop_last(), of) + of(first.last().1));
    assert(rest.skip(1) =~= m.skip(from + 1));
}

/// The sum over all places is that over the first and that over the rest.
pub proof fn lemma_total_split<V>(m: Seq<(Seq<u8>, V)>, of: spec_fn(V) -> int, count: int)
    requires
        0 <= count <= m.len(),
    ensures
        total(m, of) == total(m.take(count), of) + total(m.skip(count), of),
    decreases m.len() - count,
{
    if count == m.len() {
        assert(m.take(count) =~= m);
        assert(m.skip(count) =~= Seq::empty());
    } else {
        lemma_total_split(m.drop_last(), of, count);
        assert(m.drop_last().take(count) =~= m.take(count));
        assert(m.skip(count).drop_last() =~= m.drop_last().skip(count));
        assert(m.skip(count).last() == m.last());
    }
}

} // verus!
