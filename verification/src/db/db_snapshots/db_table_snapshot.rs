use vstd::prelude::*;
use vstd::utf8::encode_utf8;
use crate::date_time::DateTimeAsMicroseconds;
use crate::db::db_partition::DbPartition;
use crate::db::db_snapshots::db_partition_snapshot::DbPartitionSnapshot;
use crate::db::db_snapshots::db_rows_snapshot::payloads_of;
use crate::db::db_table::{DbTable, DbTableAttributes};
use crate::json_writer::JsonArrayWriter;
use crate::key_order::bytes_less;
use crate::ordered_map::{is_sorted, lemma_rank_is, OrderedMap};

verus! {

/// A table as it stood at one instant: what is laid down for it, when it
/// was last written, and its partitions by key.
pub struct DbTableSnapshot {
    pub attr: DbTableAttributes,
    pub last_update_time: DateTimeAsMicroseconds,
    pub by_partition: OrderedMap<DbPartitionSnapshot>,
}

/// Whether the snapshots are those of the partitions, key by key.
pub open spec fn are_snapshots_of(
    snapshots: Seq<(Seq<u8>, DbPartitionSnapshot)>,
    partitions: Seq<(Seq<u8>, DbPartition)>,
) -> bool {
    &&& snapshots.len() == partitions.len()
    &&& forall|i: int|
        0 <= i < snapshots.len() ==> (#[trigger] snapshots[i]).0 == partitions[i].0
            && snapshots[i].1.last_write_moment == partitions[i].1.last_write_moment
            && snapshots[i].1.db_rows_snapshot.db_rows@ == partitions[i].1.rows.rows()
}

/// The bytes of the rows of the first `count` partitions, partition by
/// partition.
pub open spec fn payloads_of_snapshots(
    snapshots: Seq<(Seq<u8>, DbPartitionSnapshot)>,
    count: int,
) -> Seq<Seq<u8>>
    decreases count,
{
    if count <= 0 {
        Seq::empty()
    } else {
        payloads_of_snapshots(snapshots, count - 1) + payloads_of(
            snapshots[count - 1].1.db_rows_snapshot.db_rows@,
        )
    }
}

impl DbTableSnapshot {
    /// The table as it stands.
    pub fn new(last_update_time: DateTimeAsMicroseconds, db_table: &DbTable) -> (r: Self)
        requires
            db_table.wf(),
        ensures
            r.attr == db_table.attributes,
            r.last_update_time == last_update_time,
            is_sorted(r.by_partition@),
            are_snapshots_of(r.by_partition@, db_table.partitions.partitions@),
    {
        let ghost m = db_table.partitions.partitions@;
        let mut by_partition: OrderedMap<DbPartitionSnapshot> = OrderedMap::new();
        let mut at: usize = 0;
        while at < db_table.partitions.len()
            invariant
                m == db_table.partitions.partitions@,
                is_sorted(m),
                at <= m.len(),
                is_sorted(by_partition@),
                are_snapshots_of(by_partition@, m.take(at as int)),
            decreases m.len() - at,
        {
            let key = db_table.partitions.partitions.key(at).clone();
            let snapshot = DbPartitionSnapshot::new(db_table.partitions.partitions.value(at));
            let ghost before = by_partition@;
            proof {
                assert forall|j: int| 0 <= j < before.len() implies bytes_less(
                    #[trigger] before[j].0,
                    encode_utf8(key@),
                ) by {
                    assert(before[j].0 == m.take(at as int)[j].0);
                    assert(bytes_less(m[j].0, m[at as int].0));
                }
                lemma_rank_is(before, encode_utf8(key@), at as int);
            }
            by_partition.insert(key, snapshot);
            proof {
                let after = by_partition@;
                assert forall|i: int| 0 <= i < after.len() implies (#[trigger] after[i]).0
                    == m.take(at + 1)[i].0 && after[i].1.last_write_moment == m.take(
                    at + 1,
                )[i].1.last_write_moment && after[i].1.db_rows_snapshot.db_rows@ == m.take(
                    at + 1,
                )[i].1.rows.rows() by {
                    if i < at {
                        assert(after[i] == before[i]);
                        assert(m.take(at as int)[i] == m.take(at + 1)[i]);
                    }
                }
            }
            at = at + 1;
        }
        assert(m.take(at as int) =~= m);
        DbTableSnapshot { attr: db_table.attributes, last_update_time, by_partition }
    }

    /// The rows of the table as a JSON array, partition by partition.
    pub fn as_json_array(&self) -> (r: JsonArrayWriter)
        ensures
            r.wf(),
            r.elements@ == payloads_of_snapshots(
                self.by_partition@,
                self.by_partition@.len() as int,
            ),
    {
        let mut json_array_writer = JsonArrayWriter::new();
        let mut at: usize = 0;
        assert(json_array_writer.elements@ =~= payloads_of_snapshots(self.by_partition@, 0));
        while at < self.by_partition.len()
            invariant
                at <= self.by_partition@.len(),
                json_array_writer.wf(),
                json_array_writer.elements@ == payloads_of_snapshots(self.by_partition@, at as int),
            decreases self.by_partition@.len() - at,
        {
            self.by_partition.value(at).db_rows_snapshot.fill_with_json_data(
                &mut json_array_writer,
            );
            at = at + 1;
        }
        json_array_writer
    }
}

} // verus!
