use vstd::prelude::*;
use crate::date_time::DateTimeAsMicroseconds;
use crate::db::db_partition::DbPartition;
use crate::db::db_snapshots::db_rows_snapshot::DbRowsSnapshot;

verus! {

/// A partition as it stood at one instant: when it was last read and
/// written, and its rows.
pub struct DbPartitionSnapshot {
    pub last_read_moment: DateTimeAsMicroseconds,
    pub last_write_moment: DateTimeAsMicroseconds,
    pub db_rows_snapshot: DbRowsSnapshot,
}

impl DbPartitionSnapshot {
    /// The partition as it stands. When it was last read is what is found
    /// at the instant of looking.
    pub fn new(db_partition: &DbPartition) -> (r: Self)
        ensures
            r.last_write_moment == db_partition.last_write_moment,
            r.db_rows_snapshot.db_rows@ == db_partition.rows.rows(),
    {
        DbPartitionSnapshot {
            last_read_moment: db_partition.get_last_read_moment(),
            last_write_moment: db_partition.get_last_write_moment(),
            db_rows_snapshot: DbRowsSnapshot::new_from_snapshot(
                db_partition.get_all_rows_cloned(),
            ),
        }
    }

    /// Whether the partition was written after it was last saved.
    pub fn has_to_persist(&self, written_in_blob: DateTimeAsMicroseconds) -> (r: bool)
        ensures
            r == (written_in_blob.unix_microseconds < self.last_write_moment.unix_microseconds),
    {
        written_in_blob.unix_microseconds < self.last_write_moment.unix_microseconds
    }
}

} // verus!
